use crate::entity::Entity;
use crate::ids::{ColumnKey, ComponentId};
use crate::key::Key;
use crate::storage::dense::{distinct_keys, sort_keys, sorted_by_key, DenseMap, DenseSet};
use crate::storage::table::{ColumnCell, Row, SelectedRow, Table};
use std::collections::hash_map::DefaultHasher;
use std::collections::HashMap;
use std::hash::{Hash, Hasher};
use vstd::prelude::*;

verus! {

broadcast use vstd::std_specs::hash::group_hash_axioms;

/// `ids.hash(hasher)`: feeds the list of ids to the hasher. What it writes
/// is not stated: the bytes of a number depend on the machine's byte order.
#[verifier::external_body]
fn feed_ids(ids: &[ComponentId], hasher: &mut DefaultHasher) {
    ids.hash(hasher);
}

/// The direction of a move between archetypes.
#[derive(Clone, Copy, Debug, PartialEq, Eq, Structural, Hash)]
pub enum EdgeType {
    Add,
    Remove,
}

impl EdgeType {
    /// The other kind.
    pub open spec fn reverse_spec(&self) -> Self {
        match *self {
            EdgeType::Add => EdgeType::Remove,
            EdgeType::Remove => EdgeType::Add,
        }
    }

    pub fn reverse(&self) -> (r: Self)
        ensures
            r == self.reverse_spec(),
    {
        match self {
            EdgeType::Add => EdgeType::Remove,
            EdgeType::Remove => EdgeType::Add,
        }
    }
}

/// Identifies an archetype: a digest of its component ids.
#[derive(Clone, Copy, Debug, PartialEq, Eq, Structural, Hash, PartialOrd)]
pub struct ArchetypeId(pub u64);

impl Key for ArchetypeId {
    open spec fn spec_key(&self) -> u64 {
        self.0
    }

    fn key(&self) -> (r: u64) {
        self.0
    }

    proof fn lemma_key_injective(a: Self, b: Self) {
    }
}

/// The ids in order, without those for which `removed` holds one with the
/// same number.
pub open spec fn without_ids(ids: Seq<ComponentId>, removed: Seq<ComponentId>) -> Seq<
    ComponentId,
> {
    ids.filter(|c: ComponentId| !removed.contains(c))
}

/// The numbers of `ids` go up strictly.
pub open spec fn increasing(ids: Seq<ComponentId>) -> bool {
    forall|x: int, y: int| 0 <= x < y < ids.len() ==> #[trigger] ids[x].0 < #[trigger] ids[y].0
}

/// `e` is the edge for the components `ids`: the component itself where
/// there is one, else an archetype's id.
pub open spec fn edge_for(ids: Seq<ComponentId>, e: EdgeId) -> bool {
    &&& ids.len() == 1 ==> e == EdgeId::Component(ids[0])
    &&& ids.len() != 1 ==> e is Archetype
}

/// Some key of `keys` before position `n` has the number of `c`.
pub open spec fn names(keys: Seq<ColumnKey>, c: ComponentId, n: int) -> bool {
    exists|k: int| 0 <= k < n && #[trigger] keys[k].0 == c.0
}

/// `s` with `a` added at the end where `add` holds and `s` does not list it.
pub open spec fn listed_once(s: Seq<ArchetypeId>, a: ArchetypeId, add: bool) -> Seq<ArchetypeId> {
    if add && !s.contains(a) {
        s.push(a)
    } else {
        s
    }
}

impl ArchetypeId {
    /// The id of the archetype with the components `ids`, in that order.
    pub fn new(ids: &[ComponentId]) -> (r: Self) {
        let mut hasher = DefaultHasher::new();
        feed_ids(ids, &mut hasher);
        ArchetypeId(hasher.finish())
    }

    /// The id with the same number.
    pub fn raw(id: u64) -> (r: Self)
        ensures
            r.0 == id,
    {
        ArchetypeId(id)
    }

    /// The id of the archetype with the components `keys`, in that order.
    pub fn from_columns(keys: &[ColumnKey]) -> (r: Self)
        ensures
            exists|s: &[ComponentId]|
                s@ == keys@.map_values(|k: ColumnKey| ComponentId(k.0)) && #[trigger] call_ensures(
                    ArchetypeId::new,
                    (s,),
                    r,
                ),
    {
        let mut ids: Vec<ComponentId> = Vec::new();
        let mut i: usize = 0;
        while i < keys.len()
            invariant
                i <= keys@.len(),
                ids@ == keys@.take(i as int).map_values(|k: ColumnKey| ComponentId(k.0)),
            decreases keys@.len() - i,
        {
            ids.push(keys[i].component());
            proof {
                assert(keys@.take(i + 1) =~= keys@.take(i as int).push(keys@[i as int]));
                assert(ids@ =~= keys@.take(i + 1).map_values(|k: ColumnKey| ComponentId(k.0)));
            }
            i = i + 1;
        }
        proof {
            assert(keys@.take(keys@.len() as int) =~= keys@);
        }
        let id_of = ArchetypeId::new;
        let slice = ids.as_slice();
        let r = id_of(slice);
        assert(slice@ == keys@.map_values(|k: ColumnKey| ComponentId(k.0)));
        assert(call_ensures(ArchetypeId::new, (slice,), r));
        r
    }

    /// The components `ids` and `added` together, ordered by number, with
    /// the id of their archetype.
    pub fn add(ids: &[ComponentId], added: &[ComponentId]) -> (r: (ArchetypeId, Vec<ComponentId>))
        ensures
            r.1@.to_multiset() == (ids@ + added@).to_multiset(),
            sorted_by_key(r.1@),
            exists|s: &[ComponentId]| s@ == r.1@ && #[trigger] call_ensures(ArchetypeId::new, (s,), r.0),
    {
        let mut all: Vec<ComponentId> = Vec::new();
        let mut i: usize = 0;
        while i < ids.len()
            invariant
                i <= ids@.len(),
                all@ == ids@.subrange(0, i as int),
            decreases ids@.len() - i,
        {
            all.push(ids[i]);
            i = i + 1;
        }
        let mut j: usize = 0;
        while j < added.len()
            invariant
                j <= added@.len(),
                all@ == ids@ + added@.subrange(0, j as int),
            decreases added@.len() - j,
        {
            all.push(added[j]);
            j = j + 1;
        }
        proof {
            assert(ids@.subrange(0, ids@.len() as int) == ids@);
            assert(added@.subrange(0, added@.len() as int) == added@);
        }
        sort_keys(&mut all);
        let id_of = ArchetypeId::new;
        let slice = all.as_slice();
        let id = id_of(slice);
        assert(slice@ == all@ && call_ensures(ArchetypeId::new, (slice,), id));
        let r = (id, all);
        assert(r.1@ == slice@);
        assert(call_ensures(ArchetypeId::new, (slice,), r.0));
        r
    }

    /// The components `ids` in order, without those in `removed`, with the
    /// id of their archetype.
    pub fn remove(ids: &[ComponentId], removed: &[ComponentId]) -> (r: (
        ArchetypeId,
        Vec<ComponentId>,
    ))
        ensures
            r.1@ == without_ids(ids@, removed@),
            exists|s: &[ComponentId]| s@ == r.1@ && #[trigger] call_ensures(ArchetypeId::new, (s,), r.0),
    {
        let mut kept: Vec<ComponentId> = Vec::new();
        let mut i: usize = 0;
        while i < ids.len()
            invariant
                i <= ids@.len(),
                kept@ == without_ids(ids@.subrange(0, i as int), removed@),
            decreases ids@.len() - i,
        {
            let c = ids[i];
            let mut found = false;
            let mut j: usize = 0;
            while j < removed.len()
                invariant
                    j <= removed@.len(),
                    found == removed@.subrange(0, j as int).contains(c),
                decreases removed@.len() - j,
            {
                if removed[j] == c {
                    found = true;
                }
                proof {
                    let s0 = removed@.subrange(0, j as int);
                    let s1 = removed@.subrange(0, j + 1);
                    assert(s1 == s0.push(removed@[j as int]));
                    if s0.contains(c) {
                        let k = choose|k: int| 0 <= k < s0.len() && s0[k] == c;
                        assert(s1[k] == c);
                    }
                    if removed@[j as int] == c {
                        assert(s1[j as int] == c);
                    }
                    if s1.contains(c) {
                        let k = choose|k: int| 0 <= k < s1.len() && s1[k] == c;
                        if k < j {
                            assert(s0[k] == c);
                        }
                    }
                }
                j = j + 1;
            }
            proof {
                assert(removed@.subrange(0, j as int) == removed@);
                assert(ids@.subrange(0, i + 1) == ids@.subrange(0, i as int).push(c));
                reveal(Seq::filter);
                assert(ids@.subrange(0, i + 1).drop_last() == ids@.subrange(0, i as int));
            }
            if !found {
                kept.push(c);
            }
            i = i + 1;
        }
        proof {
            assert(ids@.subrange(0, ids@.len() as int) == ids@);
        }
        let id_of = ArchetypeId::new;
        let slice = kept.as_slice();
        let id = id_of(slice);
        assert(slice@ == kept@ && call_ensures(ArchetypeId::new, (slice,), id));
        let r = (id, kept);
        assert(r.1@ == slice@);
        assert(call_ensures(ArchetypeId::new, (slice,), r.0));
        r
    }

    /// `add` for an adding move, `remove` for a removing one.
    pub fn moved(ids: &[ComponentId], other: &[ComponentId], ty: EdgeType) -> (r: (
        ArchetypeId,
        Vec<ComponentId>,
    ))
        ensures
            ty == EdgeType::Add ==> r.1@.to_multiset() == (ids@ + other@).to_multiset()
                && sorted_by_key(r.1@),
            ty == EdgeType::Remove ==> r.1@ == without_ids(ids@, other@),
            exists|s: &[ComponentId]| s@ == r.1@ && #[trigger] call_ensures(ArchetypeId::new, (s,), r.0),
    {
        match ty {
            EdgeType::Add => ArchetypeId::add(ids, other),
            EdgeType::Remove => ArchetypeId::remove(ids, other),
        }
    }
}

/// Ordering components by number is a total order.
proof fn lemma_number_order()
    ensures
        vstd::relations::total_ordering(|a: ComponentId, b: ComponentId| a.0 <= b.0),
{
    let leq = |a: ComponentId, b: ComponentId| a.0 <= b.0;
    assert forall|a: ComponentId, b: ComponentId| #[trigger] leq(a, b) && leq(b, a) implies a == b by {
        assert(a.0 == b.0);
    }
    assert(vstd::relations::antisymmetric(leq));
}

/// Components ordered by number are sorted by that order.
proof fn lemma_sorted_by_number(s: Seq<ComponentId>)
    requires
        sorted_by_key(s),
    ensures
        vstd::relations::sorted_by(s, |a: ComponentId, b: ComponentId| a.0 <= b.0),
{
    assert forall|i: int, j: int| 0 <= i < j < s.len() implies (|a: ComponentId, b: ComponentId| a.0
        <= b.0)(s[i], s[j]) by {
        assert(s[i].spec_key() <= s[j].spec_key());
    }
}

/// Two lists of components ordered by number with the same components are
/// the same list.
proof fn lemma_sorted_same(x: Seq<ComponentId>, y: Seq<ComponentId>)
    requires
        sorted_by_key(x),
        sorted_by_key(y),
        x.to_multiset() == y.to_multiset(),
    ensures
        x == y,
{
    lemma_number_order();
    lemma_sorted_by_number(x);
    lemma_sorted_by_number(y);
    vstd::seq_lib::lemma_sorted_unique(x, y, |a: ComponentId, b: ComponentId| a.0 <= b.0);
}

proof fn lemma_without_push(s: Seq<ComponentId>, r: Seq<ComponentId>, e: ComponentId)
    ensures
        without_ids(s.push(e), r) == (if r.contains(e) {
            without_ids(s, r)
        } else {
            without_ids(s, r).push(e)
        }),
{
    reveal(Seq::filter);
    assert(s.push(e).drop_last() =~= s);
    assert(s.push(e).last() == e);
}

/// Taking `r` out of a list ordered by number keeps it ordered, keeps only
/// its own components, and keeps every one not in `r` as often as it was.
proof fn lemma_without_kept(s: Seq<ComponentId>, r: Seq<ComponentId>)
    requires
        sorted_by_key(s),
    ensures
        sorted_by_key(without_ids(s, r)),
        forall|i: int| 0 <= i < without_ids(s, r).len() ==> s.contains(#[trigger] without_ids(s, r)[i]),
        forall|c: ComponentId|
            #[trigger] without_ids(s, r).to_multiset().count(c) == (if r.contains(c) {
                0
            } else {
                s.to_multiset().count(c)
            }),
    decreases s.len(),
{
    broadcast use vstd::seq_lib::group_to_multiset_ensures;
    broadcast use vstd::multiset::group_multiset_axioms;

    if s.len() == 0 {
        reveal(Seq::filter);
        assert(without_ids(s, r) =~= Seq::<ComponentId>::empty());
    } else {
        let t = s.drop_last();
        let e = s.last();
        assert(t.push(e) =~= s);
        lemma_without_kept(t, r);
        lemma_without_push(t, r, e);
        let wt = without_ids(t, r);
        assert forall|i: int| 0 <= i < wt.len() implies s.contains(#[trigger] wt[i]) by {
            let j = choose|j: int| 0 <= j < t.len() && t[j] == wt[i];
            assert(s[j] == wt[i]);
        }
        if !r.contains(e) {
            let w = wt.push(e);
            assert forall|x: int, y: int| 0 <= x < y < w.len() implies #[trigger] w[x].spec_key()
                <= #[trigger] w[y].spec_key() by {
                if y == wt.len() {
                    let j = choose|j: int| 0 <= j < t.len() && t[j] == wt[x];
                    assert(s[j] == wt[x]);
                    assert(s[s.len() - 1] == e);
                } else {
                    assert(w[x] == wt[x] && w[y] == wt[y]);
                }
            }
            assert forall|i: int| 0 <= i < w.len() implies s.contains(#[trigger] w[i]) by {
                if i == wt.len() {
                    assert(s[s.len() - 1] == e);
                } else {
                    assert(w[i] == wt[i]);
                }
            }
        }
    }
}

/// Listing `ids` with `added` gives the same list, whichever of the two
/// comes first: both are the components of `ids` and `added` ordered by
/// number.
pub proof fn law_add_either_way(
    ids: Seq<ComponentId>,
    added: Seq<ComponentId>,
    x: Seq<ComponentId>,
    y: Seq<ComponentId>,
)
    requires
        sorted_by_key(x),
        x.to_multiset() == (ids + added).to_multiset(),
        sorted_by_key(y),
        y.to_multiset() == (added + ids).to_multiset(),
    ensures
        x == y,
{
    broadcast use vstd::multiset::group_multiset_axioms;

    vstd::seq_lib::lemma_multiset_commutative(ids, added);
    vstd::seq_lib::lemma_multiset_commutative(added, ids);
    assert(x.to_multiset() =~= y.to_multiset());
    lemma_sorted_same(x, y);
}

/// Adding `added` to `ids` and `ids` to `added` give the same list, and
/// each of the two ids is the one `ArchetypeId::new` gives for that list.
pub proof fn law_add_id_either_way(
    ids: Seq<ComponentId>,
    added: Seq<ComponentId>,
    r: (ArchetypeId, Seq<ComponentId>),
    q: (ArchetypeId, Seq<ComponentId>),
)
    requires
        sorted_by_key(r.1),
        r.1.to_multiset() == (ids + added).to_multiset(),
        exists|s: &[ComponentId]| s@ == r.1 && #[trigger] call_ensures(ArchetypeId::new, (s,), r.0),
        sorted_by_key(q.1),
        q.1.to_multiset() == (added + ids).to_multiset(),
        exists|s: &[ComponentId]| s@ == q.1 && #[trigger] call_ensures(ArchetypeId::new, (s,), q.0),
    ensures
        r.1 == q.1,
        exists|s: &[ComponentId]| s@ == r.1 && #[trigger] call_ensures(ArchetypeId::new, (s,), q.0),
{
    law_add_either_way(ids, added, r.1, q.1);
}

/// Taking `added` out of what `ArchetypeId::add(ids, added)` lists gives
/// back `ids`, where `ids` is ordered by number and shares no component
/// with `added`.
pub proof fn law_remove_undoes_add(
    ids: Seq<ComponentId>,
    added: Seq<ComponentId>,
    listed: Seq<ComponentId>,
)
    requires
        sorted_by_key(ids),
        forall|c: ComponentId| #[trigger] ids.contains(c) ==> !added.contains(c),
        sorted_by_key(listed),
        listed.to_multiset() == (ids + added).to_multiset(),
    ensures
        without_ids(listed, added) == ids,
{
    broadcast use vstd::seq_lib::group_to_multiset_ensures;
    broadcast use vstd::multiset::group_multiset_axioms;

    lemma_without_kept(listed, added);
    vstd::seq_lib::lemma_multiset_commutative(ids, added);
    let w = without_ids(listed, added);
    assert forall|c: ComponentId| #[trigger] w.to_multiset().count(c) == ids.to_multiset().count(c) by {
        if added.contains(c) {
            if ids.to_multiset().count(c) > 0 {
                assert(ids.contains(c));
            }
        } else {
            if added.to_multiset().count(c) > 0 {
                assert(added.contains(c));
            }
        }
    }
    assert(w.to_multiset() =~= ids.to_multiset());
    lemma_sorted_same(w, ids);
}

/// What a move between archetypes is keyed by: one component, or the id of
/// a set of them.
#[derive(Clone, Copy, Debug, PartialEq, Eq, Structural, Hash)]
pub enum EdgeId {
    Component(ComponentId),
    Archetype(ArchetypeId),
}

impl EdgeId {
    /// The edge for the components `ids`: the component itself where there
    /// is one, else the id of their set.
    pub fn new(ids: &[ComponentId]) -> (r: Self)
        ensures
            ids@.len() == 1 ==> r == EdgeId::Component(ids@[0]),
            ids@.len() != 1 ==> r is Archetype && call_ensures(ArchetypeId::new, (ids,), r->Archetype_0),
    {
        if ids.len() == 1 {
            EdgeId::Component(ids[0])
        } else {
            let id_of = ArchetypeId::new;
            EdgeId::Archetype(id_of(ids))
        }
    }

    /// The edge for the components with the keys `keys`, as `new` gives it.
    pub fn from_columns(keys: &[ColumnKey]) -> (r: Self)
        ensures
            keys@.len() == 1 ==> r == EdgeId::Component(ComponentId(keys@[0].0)),
            keys@.len() != 1 ==> r is Archetype && exists|s: &[ComponentId]|
                s@ == keys@.map_values(|k: ColumnKey| ComponentId(k.0)) && #[trigger] call_ensures(
                    ArchetypeId::new,
                    (s,),
                    r->Archetype_0,
                ),
    {
        if keys.len() == 1 {
            EdgeId::Component(keys[0].component())
        } else {
            let id = ArchetypeId::from_columns(keys);
            let r = EdgeId::Archetype(id);
            proof {
                let w = choose|s: &[ComponentId]|
                    s@ == keys@.map_values(|k: ColumnKey| ComponentId(k.0)) && #[trigger] call_ensures(
                        ArchetypeId::new,
                        (s,),
                        id,
                    );
                assert(r->Archetype_0 == id);
                assert(call_ensures(ArchetypeId::new, (w,), r->Archetype_0));
            }
            r
        }
    }

    pub fn from_component(id: &ComponentId) -> (r: Self)
        ensures
            r == EdgeId::Component(*id),
    {
        EdgeId::Component(*id)
    }

    pub fn from_archetype(id: &ArchetypeId) -> (r: Self)
        ensures
            r == EdgeId::Archetype(*id),
    {
        EdgeId::Archetype(*id)
    }
}

/// Targets of the edges of one kind out of an archetype, with a list of the
/// edges that have one.
pub struct EdgeMap {
    by_component: HashMap<u64, ArchetypeId>,
    by_archetype: HashMap<u64, ArchetypeId>,
    list: Vec<EdgeId>,
}

impl EdgeMap {
    /// The target of `edge`, where there is one.
    pub closed spec fn target(&self, edge: EdgeId) -> Option<ArchetypeId> {
        match edge {
            EdgeId::Component(c) => if self.by_component@.contains_key(c.0) {
                Some(self.by_component@[c.0])
            } else {
                None
            },
            EdgeId::Archetype(a) => if self.by_archetype@.contains_key(a.0) {
                Some(self.by_archetype@[a.0])
            } else {
                None
            },
        }
    }

    /// The edges listed are those with a target.
    pub closed spec fn wf(&self) -> bool {
        forall|e: EdgeId| #[trigger] self.target(e) is Some <==> self.list@.contains(e)
    }

    pub fn new() -> (r: Self)
        ensures
            r.wf(),
            forall|e: EdgeId| #[trigger] r.target(e) is None,
    {
        EdgeMap { by_component: HashMap::new(), by_archetype: HashMap::new(), list: Vec::new() }
    }

    pub fn get(&self, edge: &EdgeId) -> (r: Option<&ArchetypeId>)
        ensures
            match self.target(*edge) {
                Some(t) => r == Some(&t),
                None => r is None,
            },
    {
        match edge {
            EdgeId::Component(c) => self.by_component.get(&c.0),
            EdgeId::Archetype(a) => self.by_archetype.get(&a.0),
        }
    }

    pub fn insert(&mut self, edge: EdgeId, target: ArchetypeId)
        requires
            old(self).wf(),
        ensures
            final(self).wf(),
            final(self).target(edge) == Some(target),
            forall|e: EdgeId| e != edge ==> #[trigger] final(self).target(e) == old(self).target(e),
    {
        broadcast use vstd::seq_lib::lemma_seq_contains_after_push;

        self.list.push(edge);
        match edge {
            EdgeId::Component(c) => {
                self.by_component.insert(c.0, target);
            },
            EdgeId::Archetype(a) => {
                self.by_archetype.insert(a.0, target);
            },
        }
        proof {
            assert forall|e: EdgeId| #[trigger] self.target(e) is Some <==> self.list@.contains(e) by {
                assert(self.list@ == old(self).list@.push(edge));
                if e != edge {
                    assert(old(self).target(e) == self.target(e));
                    if self.list@.contains(e) {
                        let k = choose|k: int| 0 <= k < self.list@.len() && self.list@[k] == e;
                        assert(old(self).list@[k] == e);
                    }
                }
            }
        }
    }

    /// The edges that have a target, each at least once.
    pub fn edges(&self) -> (r: &[EdgeId])
        requires
            self.wf(),
        ensures
            forall|e: EdgeId| #[trigger] self.target(e) is Some <==> r@.contains(e),
    {
        self.list.as_slice()
    }
}

/// The entities that have one set of components, stored in one table, with
/// the moves to other archetypes found so far.
pub struct Archetype<T> {
    id: ArchetypeId,
    components: DenseSet<ComponentId>,
    add_edges: EdgeMap,
    remove_edges: EdgeMap,
    table: Table<Entity, T>,
}

impl<T> Archetype<T> {
    pub closed spec fn spec_id(&self) -> ArchetypeId {
        self.id
    }

    pub closed spec fn component_set(&self) -> DenseSet<ComponentId> {
        self.components
    }

    pub closed spec fn edges(&self, ty: EdgeType) -> EdgeMap {
        match ty {
            EdgeType::Add => self.add_edges,
            EdgeType::Remove => self.remove_edges,
        }
    }

    pub closed spec fn tab(&self) -> Table<Entity, T> {
        self.table
    }

    /// Where the edge `edge` of kind `ty` leads, where it is known.
    pub open spec fn edge_target(&self, edge: EdgeId, ty: EdgeType) -> Option<ArchetypeId> {
        self.edges(ty).target(edge)
    }

    /// Both edge maps list every edge they have.
    pub open spec fn edges_wf(&self) -> bool {
        &&& self.edges(EdgeType::Add).wf()
        &&& self.edges(EdgeType::Remove).wf()
    }

    /// An archetype with the id `id` and the table `table`, no recorded
    /// components and no edges.
    pub fn new(id: ArchetypeId, table: Table<Entity, T>) -> (r: Self)
        ensures
            r.spec_id() == id,
            r.tab() == table,
            r.component_set().key_seq() == Seq::<ComponentId>::empty(),
            r.component_set().index_map() == Map::<u64, usize>::empty(),
            r.edges_wf(),
            forall|e: EdgeId, ty: EdgeType| #[trigger] r.edge_target(e, ty) is None,
    {
        let r = Archetype {
            id,
            components: DenseSet::new(),
            add_edges: EdgeMap::new(),
            remove_edges: EdgeMap::new(),
            table,
        };
        proof {
            assert forall|e: EdgeId, ty: EdgeType| #[trigger] r.edge_target(e, ty) is None by {
                assert(r.add_edges.target(e) is None);
                assert(r.remove_edges.target(e) is None);
            }
        }
        r
    }

    pub fn id(&self) -> (r: ArchetypeId)
        ensures
            r == self.spec_id(),
    {
        self.id
    }

    pub fn components(&self) -> (r: &[ComponentId])
        ensures
            r@ == self.component_set().key_seq(),
    {
        self.components.keys()
    }

    /// The value of `entity` in the column of the type `C`.
    pub fn component<C: 'static>(&self, entity: &Entity) -> (r: Option<&T>)
        requires
            self.tab().wf(),
        ensures
            exists|key: ColumnKey|
                #![trigger self.tab().item_spec(key, *entity)]
                match self.tab().item_spec(key, *entity) {
                    Some(v) => r == Some(&v),
                    None => r is None,
                },
    {
        self.table.field::<C>(*entity)
    }

    /// The value of `entity` in the column of the type `C`, to change in
    /// place.
    pub fn component_mut<C: 'static>(&mut self, entity: &Entity) -> (r: Option<&mut T>)
        requires
            old(self).tab().wf(),
        ensures
            final(self).tab().wf(),
            final(self).tab().row_set() == old(self).tab().row_set(),
            final(self).tab().col_map().key_seq() == old(self).tab().col_map().key_seq(),
            final(self).spec_id() == old(self).spec_id(),
            final(self).component_set() == old(self).component_set(),
            forall|ty: EdgeType| #[trigger] final(self).edges(ty) == old(self).edges(ty),
            forall|e: EdgeId, ty: EdgeType|
                #[trigger] final(self).edge_target(e, ty) == old(self).edge_target(e, ty),
            exists|key: ColumnKey|
                #![trigger old(self).tab().item_spec(key, *entity)]
                {
                    &&& old(self).tab().item_spec(key, *entity) is Some <==> r is Some
                    &&& r is Some ==> *r->0 == old(self).tab().item_spec(key, *entity)->0
                    &&& r matches Some(v) ==> final(self).tab().item_spec(key, *entity) == Some(*final(v))
                    &&& forall|k: ColumnKey, i: Entity|
                        k.spec_key() != key.spec_key() || !old(self).tab().row_set().has(*entity)
                            || old(self).tab().row_pos(i) != old(self).tab().row_pos(*entity)
                            ==> #[trigger] final(self).tab().item_spec(k, i) == old(self).tab().item_spec(k, i)
                },
    {
        self.table.field_mut::<C>(*entity)
    }

    pub fn entities(&self) -> (r: &[Entity])
        ensures
            r@ == self.tab().row_set().key_seq(),
    {
        self.table.rows()
    }

    /// Where the edge `id` of kind `ty` leads.
    pub fn edge(&self, id: EdgeId, ty: EdgeType) -> (r: Option<&ArchetypeId>)
        ensures
            match self.edge_target(id, ty) {
                Some(t) => r == Some(&t),
                None => r is None,
            },
    {
        match ty {
            EdgeType::Add => self.add_edges.get(&id),
            EdgeType::Remove => self.remove_edges.get(&id),
        }
    }

    /// Records that the edge `id` of kind `ty` leads to `target`.
    pub fn insert_edge(&mut self, id: EdgeId, target: ArchetypeId, ty: EdgeType)
        requires
            old(self).edges_wf(),
        ensures
            final(self).edges_wf(),
            final(self).edge_target(id, ty) == Some(target),
            forall|e: EdgeId, t: EdgeType|
                !(e == id && t == ty) ==> #[trigger] final(self).edge_target(e, t) == old(
                    self,
                ).edge_target(e, t),
            final(self).spec_id() == old(self).spec_id(),
            final(self).component_set() == old(self).component_set(),
            final(self).tab() == old(self).tab(),
    {
        match ty {
            EdgeType::Add => {
                self.add_edges.insert(id, target);
            },
            EdgeType::Remove => {
                self.remove_edges.insert(id, target);
            },
        }
    }

    pub fn select(&self, entity: &Entity) -> (r: Option<SelectedRow<'_, T>>)
        ensures
            self.tab().row_set().has(*entity) ==> r is Some && r->0.col_map() == self.tab().col_map()
                && r->0.position() == self.tab().row_pos(*entity),
            !self.tab().row_set().has(*entity) ==> r is None,
    {
        self.table.select(*entity)
    }

    /// Appends `entity` to the table with the values of `row`.
    pub fn insert(&mut self, entity: &Entity, row: Row<T>)
        requires
            old(self).tab().wf(),
            row.wf(),
            forall|i: int|
                0 <= i < old(self).tab().col_map().key_seq().len() ==> row.has(
                    #[trigger] old(self).tab().col_map().key_seq()[i],
                ),
        ensures
            final(self).tab().wf(),
            old(self).tab().inserted_row(&final(self).tab(), *entity, row),
            old(self).tab().aligned() ==> final(self).tab().aligned(),
            final(self).spec_id() == old(self).spec_id(),
            final(self).component_set() == old(self).component_set(),
            forall|ty: EdgeType| #[trigger] final(self).edges(ty) == old(self).edges(ty),
            forall|e: EdgeId, ty: EdgeType|
                #[trigger] final(self).edge_target(e, ty) == old(self).edge_target(e, ty),
    {
        self.table.insert(*entity, row);
    }

    /// Takes `entity` out of the table, handing back its values.
    pub fn remove(&mut self, entity: &Entity) -> (r: Option<Row<T>>)
        requires
            old(self).tab().wf(),
            old(self).tab().aligned(),
            old(self).tab().row_set().in_range(*entity),
        ensures
            final(self).tab().wf(),
            final(self).tab().aligned(),
            old(self).tab().removed_row(&final(self).tab(), *entity, r),
            final(self).spec_id() == old(self).spec_id(),
            final(self).component_set() == old(self).component_set(),
            forall|ty: EdgeType| #[trigger] final(self).edges(ty) == old(self).edges(ty),
            forall|e: EdgeId, ty: EdgeType|
                #[trigger] final(self).edge_target(e, ty) == old(self).edge_target(e, ty),
    {
        self.table.remove(*entity)
    }

    pub fn contains(&self, entity: &Entity) -> (r: bool)
        ensures
            r == self.tab().row_set().has(*entity),
    {
        self.table.contains(*entity)
    }

    pub fn has_component(&self, id: &ComponentId) -> (r: bool)
        ensures
            r == self.component_set().has(*id),
    {
        self.components.contains(id)
    }
}

/// How many times `a` occurs among the first `n` ids of `s`.
pub open spec fn count_of(s: Seq<ArchetypeId>, n: int, a: ArchetypeId) -> nat
    decreases n,
{
    if n <= 0 {
        0
    } else {
        count_of(s, n - 1, a) + if s[n - 1] == a {
            1nat
        } else {
            0nat
        }
    }
}

proof fn lemma_count_of_bound(s: Seq<ArchetypeId>, n: int, a: ArchetypeId)
    ensures
        count_of(s, n, a) <= if n <= 0 {
            0
        } else {
            n
        },
    decreases n,
{
    if n > 0 {
        lemma_count_of_bound(s, n - 1, a);
    }
}

/// The archetypes of a world: each entity is recorded in one of them, and
/// for each component, the archetypes that were made with it.
pub struct Archetypes<T> {
    root_id: ArchetypeId,
    entities: DenseMap<Entity, ArchetypeId>,
    archetypes: DenseMap<ArchetypeId, Archetype<T>>,
    components: DenseMap<ComponentId, DenseSet<ArchetypeId>>,
}

impl<T> Archetypes<T> {
    pub closed spec fn root(&self) -> ArchetypeId {
        self.root_id
    }

    pub closed spec fn entity_map(&self) -> DenseMap<Entity, ArchetypeId> {
        self.entities
    }

    pub closed spec fn archetype_map(&self) -> DenseMap<ArchetypeId, Archetype<T>> {
        self.archetypes
    }

    pub closed spec fn component_map(&self) -> DenseMap<ComponentId, DenseSet<ArchetypeId>> {
        self.components
    }

    /// The archetype under `id`.
    pub open spec fn arch(&self, id: ArchetypeId) -> Archetype<T> {
        self.archetype_map().lookup(id)
    }

    /// The archetype recorded for `e`.
    pub open spec fn arch_of(&self, e: Entity) -> ArchetypeId {
        self.entity_map().lookup(e)
    }

    /// The maps are well formed, and every archetype has a well formed,
    /// aligned table and the id it is stored under.
    pub open spec fn wf(&self) -> bool {
        &&& self.entity_map().wf()
        &&& self.entity_map().is_proper()
        &&& self.archetype_map().wf()
        &&& self.archetype_map().is_proper()
        &&& self.component_map().wf()
        &&& self.component_map().is_proper()
        &&& forall|i: int|
            0 <= i < self.archetype_map().value_seq().len() ==> {
                let a = #[trigger] self.archetype_map().value_seq()[i];
                &&& a.tab().wf()
                &&& a.tab().aligned()
                &&& a.spec_id() == self.archetype_map().key_seq()[i]
                &&& a.edges_wf()
            }
        &&& self.lists_known()
        &&& self.lists_proper()
    }

    /// The list of archetypes of each component has a proper index: no
    /// archetype is listed twice.
    pub open spec fn lists_proper(&self) -> bool {
        forall|c: ComponentId| #[trigger]
            self.component_map().has(c) ==> self.component_map().lookup(c).is_proper()
    }

    /// Every id listed for a component names a known archetype.
    pub open spec fn lists_known(&self) -> bool {
        forall|c: ComponentId, j: int|
            0 <= j < self.listed_for(c).len() ==> self.archetype_map().has(
                #[trigger] self.listed_for(c)[j],
            )
    }

    proof fn lemma_lists_kept(&self, new: &Self)
        requires
            self.lists_known(),
            new.component_map() == self.component_map(),
            new.archetype_map().index_map() == self.archetype_map().index_map(),
        ensures
            new.lists_known(),
    {
        assert forall|c: ComponentId, j: int|
            0 <= j < new.listed_for(c).len() implies new.archetype_map().has(
                #[trigger] new.listed_for(c)[j],
            ) by {
            assert(self.listed_for(c) == new.listed_for(c));
            assert(self.archetype_map().has(self.listed_for(c)[j]));
        }
    }

    /// The ids listed for the component `c`.
    pub open spec fn listed_for(&self, c: ComponentId) -> Seq<ArchetypeId> {
        if self.component_map().has(c) {
            self.component_map().lookup(c).key_seq()
        } else {
            Seq::empty()
        }
    }

    /// How many times `a` is listed for the first `n` of `ids`.
    pub open spec fn listed(&self, ids: Seq<ComponentId>, n: int, a: ArchetypeId) -> nat
        decreases n,
    {
        if n <= 0 {
            0
        } else {
            self.listed(ids, n - 1, a) + count_of(
                self.listed_for(ids[n - 1]),
                self.listed_for(ids[n - 1]).len() as int,
                a,
            )
        }
    }

    /// How many ids are listed for the first `n` of `ids`.
    pub open spec fn listed_total(&self, ids: Seq<ComponentId>, n: int) -> nat
        decreases n,
    {
        if n <= 0 {
            0
        } else {
            self.listed_total(ids, n - 1) + self.listed_for(ids[n - 1]).len()
        }
    }

    /// Some component of `exclude` is recorded for the archetype `a`.
    pub open spec fn excluded(&self, a: ArchetypeId, exclude: Seq<ComponentId>) -> bool {
        exists|k: int| 0 <= k < exclude.len() && #[trigger] self.arch(a).component_set().has(exclude[k])
    }

    /// The archetype `a` is known, has entities, and none of `exclude`.
    pub open spec fn eligible(&self, a: ArchetypeId, exclude: Seq<ComponentId>) -> bool {
        &&& self.archetype_map().has(a)
        &&& self.arch(a).tab().row_set().key_seq().len() > 0
        &&& !self.excluded(a, exclude)
    }

    /// What `query(ids, exclude)` finds: an eligible archetype listed for
    /// the components `ids` at least as many times as there are ids.
    pub open spec fn matches_query(&self, a: ArchetypeId, ids: Seq<ComponentId>, exclude: Seq<
        ComponentId,
    >) -> bool {
        &&& self.eligible(a, exclude)
        &&& self.listed(ids, ids.len() as int, a) > 0
        &&& self.listed(ids, ids.len() as int, a) >= ids.len()
    }

    proof fn lemma_listed_bound(&self, ids: Seq<ComponentId>, n: int, a: ArchetypeId)
        ensures
            self.listed(ids, n, a) <= self.listed_total(ids, n),
            forall|m: int| 0 <= m <= n ==> #[trigger] self.listed_total(ids, m) <= self.listed_total(ids, n),
        decreases n,
    {
        if n > 0 {
            self.lemma_listed_bound(ids, n - 1, a);
            lemma_count_of_bound(self.listed_for(ids[n - 1]), self.listed_for(ids[n - 1]).len() as int, a);
        }
    }

    pub fn new() -> (r: Self)
        ensures
            r.wf(),
            r.entity_map().key_seq() == Seq::<Entity>::empty(),
            r.component_map().key_seq() == Seq::<ComponentId>::empty(),
            r.archetype_map().key_seq() == seq![r.root()],
            r.archetype_map().has(r.root()),
            r.arch(r.root()).tab().col_map().key_seq() == Seq::<ColumnKey>::empty(),
            r.arch(r.root()).tab().row_set().key_seq() == Seq::<Entity>::empty(),
            r.arch(r.root()).component_set().key_seq() == Seq::<ComponentId>::empty(),
            r.arch(r.root()).spec_id() == r.root(),
            forall|e: EdgeId, ty: EdgeType| #[trigger] r.arch(r.root()).edge_target(e, ty) is None,
    {
        let root_id = ArchetypeId::new(&[]);
        let table: Table<Entity, T> = Table::builder().build();
        let root = Archetype::new(root_id, table);
        let mut archetypes = DenseMap::new();
        archetypes.insert(root_id, root);
        let r = Archetypes {
            root_id,
            archetypes,
            entities: DenseMap::new(),
            components: DenseMap::new(),
        };
        proof {
            assert(r.archetype_map().has(root_id));
            assert(r.archetype_map().slot(root_id) == 0);
            assert(r.archetype_map().value_seq()[0] == root);
            assert(r.archetype_map().key_seq() =~= seq![root_id]);
        }
        r
    }

    pub fn root_id(&self) -> (r: ArchetypeId)
        ensures
            r == self.root(),
    {
        self.root_id
    }

    pub fn get(&self, id: &ArchetypeId) -> (r: Option<&Archetype<T>>)
        requires
            self.wf(),
        ensures
            self.archetype_map().has(*id) ==> r == Some(&self.arch(*id)),
            !self.archetype_map().has(*id) ==> r is None,
    {
        self.archetypes.get(id)
    }
}

/// Some component of `exclude` is recorded for `archetype`.
fn has_any<T>(archetype: &Archetype<T>, exclude: &[ComponentId]) -> (r: bool)
    ensures
        r == exists|k: int| 0 <= k < exclude@.len() && #[trigger] archetype.component_set().has(exclude@[k]),
{
    let mut i: usize = 0;
    while i < exclude.len()
        invariant
            i <= exclude@.len(),
            forall|k: int| 0 <= k < i ==> !#[trigger] archetype.component_set().has(exclude@[k]),
        decreases exclude@.len() - i,
    {
        if archetype.has_component(&exclude[i]) {
            return true;
        }
        i = i + 1;
    }
    false
}

impl<T> Archetypes<T> {
    /// The eligible archetypes listed for the components `ids` at least as
    /// many times as there are ids, in the order they were first met.
    pub fn query(&self, ids: &[ComponentId], exclude: &[ComponentId]) -> (r: Vec<ArchetypeId>)
        requires
            self.wf(),
            self.listed_total(ids@, ids@.len() as int) <= usize::MAX,
        ensures
            forall|a: ArchetypeId| #[trigger] r@.contains(a) <==> self.matches_query(a, ids@, exclude@),
            r@.no_duplicates(),
    {
        let mut counts: DenseMap<ArchetypeId, usize> = DenseMap::new();
        let mut i: usize = 0;
        while i < ids.len()
            invariant
                self.wf(),
                self.listed_total(ids@, ids@.len() as int) <= usize::MAX,
                i <= ids@.len(),
                counts.wf(),
                counts.is_proper(),
                forall|a: ArchetypeId|
                    #[trigger] counts.has(a) <==> (self.eligible(a, exclude@) && self.listed(
                        ids@,
                        i as int,
                        a,
                    ) > 0),
                forall|a: ArchetypeId|
                    counts.has(a) ==> #[trigger] counts.lookup(a) == self.listed(ids@, i as int, a),
            decreases ids@.len() - i,
        {
            proof {
                self.lemma_listed_bound(ids@, ids@.len() as int, ArchetypeId(0));
                assert(self.listed_total(ids@, i + 1) <= self.listed_total(ids@, ids@.len() as int));
            }
            match self.components.get(&ids[i]) {
                Some(set) => {
                    let keys = set.keys();
                    let mut j: usize = 0;
                    while j < keys.len()
                        invariant
                            self.wf(),
                            i < ids@.len(),
                            keys@ == self.listed_for(ids@[i as int]),
                            self.listed_total(ids@, i + 1) <= usize::MAX,
                            forall|j: int|
                                0 <= j < keys@.len() ==> self.archetype_map().has(#[trigger] keys@[j]),
                            j <= keys@.len(),
                            counts.wf(),
                            counts.is_proper(),
                            forall|a: ArchetypeId|
                                #[trigger] counts.has(a) <==> (self.eligible(a, exclude@) && self.listed(
                                    ids@,
                                    i as int,
                                    a,
                                ) + count_of(keys@, j as int, a) > 0),
                            forall|a: ArchetypeId|
                                counts.has(a) ==> #[trigger] counts.lookup(a) == self.listed(
                                    ids@,
                                    i as int,
                                    a,
                                ) + count_of(keys@, j as int, a),
                        decreases keys@.len() - j,
                    {
                        let aid = keys[j];
                        assert(self.listed_for(ids@[i as int])[j as int] == aid);
                        let archetype = self.archetypes.get(&aid).unwrap();
                        let skip = archetype.entities().is_empty() || has_any(archetype, exclude);
                        proof {
                            assert(skip == !self.eligible(aid, exclude@));
                        }
                        if !skip {
                            let ghost before = counts;
                            proof {
                                if counts.has(aid) {
                                    self.lemma_listed_bound(ids@, i as int, aid);
                                    lemma_count_of_bound(keys@, j as int, aid);
                                    assert(self.listed_total(ids@, i + 1) == self.listed_total(
                                        ids@,
                                        i as int,
                                    ) + keys@.len());
                                    assert(before.lookup(aid) == self.listed(ids@, i as int, aid)
                                        + count_of(keys@, j as int, aid));
                                    assert(before.lookup(aid) < usize::MAX);
                                }
                            }
                            proof {
                                before.lemma_wf();
                            }
                            match counts.get(&aid) {
                                Some(c) => {
                                    let next = *c + 1;
                                    counts.insert(aid, next);
                                },
                                None => {
                                    counts.insert(aid, 1);
                                },
                            }
                            proof {
                                assert forall|a: ArchetypeId| #[trigger] counts.has(a) == before.has(a) || a == aid by {
                                }
                                assert forall|a: ArchetypeId| a != aid && counts.has(a) implies #[trigger] counts.lookup(a)
                                    == before.lookup(a) by {
                                    assert(before.has(a));
                                    before.lemma_wf();
                                    assert(before.slot(a) < before.value_seq().len());
                                    assert(before.key_seq()[before.slot(a)].spec_key() == a.spec_key());
                                    if before.has(aid) {
                                        assert(before.key_seq()[before.slot(aid)].spec_key() == aid.spec_key());
                                        assert(before.slot(a) != before.slot(aid));
                                    }
                                }

                            }
                        }
                        j = j + 1;
                    }
                },
                None => {},
            }
            proof {
                assert forall|a: ArchetypeId| self.listed(ids@, i + 1, a) == self.listed(ids@, i as int, a)
                    + count_of(self.listed_for(ids@[i as int]), self.listed_for(ids@[i as int]).len() as int, a) by {
                }
            }
            i = i + 1;
        }
        let n = ids.len();
        let keys = counts.keys();
        let values = counts.values();
        proof {
            counts.lemma_wf();
            counts.lemma_proper_distinct();
        }
        let mut r: Vec<ArchetypeId> = Vec::new();
        let mut k: usize = 0;
        while k < keys.len()
            invariant
                keys@ == counts.key_seq(),
                values@ == counts.value_seq(),
                keys@.len() == values@.len(),
                k <= keys@.len(),
                distinct_keys(keys@),
                r@.no_duplicates(),
                forall|a: ArchetypeId|
                    #[trigger] r@.contains(a) <==> exists|q: int|
                        0 <= q < k && values@[q] >= n && #[trigger] keys@[q] == a,
            decreases keys@.len() - k,
        {
            let ghost r0 = r@;
            if values[k] >= n {
                proof {
                    if r0.contains(keys@[k as int]) {
                        let q = choose|q: int| 0 <= q < k && values@[q] >= n && #[trigger] keys@[q] == keys@[k as int];
                        assert(keys@[q].spec_key() != keys@[k as int].spec_key());
                    }
                }
                r.push(keys[k]);
                proof {
                    assert forall|x: int, y: int| 0 <= x < y < r@.len() implies r@[x] != r@[y] by {
                        if y == r0.len() {
                            assert(r0.contains(r0[x]));
                        }
                    }
                }
            }
            proof {
                assert forall|a: ArchetypeId| #[trigger] r@.contains(a) <==> exists|q: int|
                    0 <= q < k + 1 && values@[q] >= n && #[trigger] keys@[q] == a by {
                    if r@.contains(a) {
                        let j = choose|j: int| 0 <= j < r@.len() && r@[j] == a;
                        if j < r0.len() {
                            assert(r0[j] == a);
                            assert(r0.contains(a));
                        } else {
                            assert(keys@[k as int] == a);
                        }
                    }
                    if exists|q: int| 0 <= q < k + 1 && values@[q] >= n && #[trigger] keys@[q] == a {
                        let q = choose|q: int| 0 <= q < k + 1 && values@[q] >= n && #[trigger] keys@[q] == a;
                        if q < k {
                            assert(r0.contains(a));
                            let j = choose|j: int| 0 <= j < r0.len() && r0[j] == a;
                            assert(r@[j] == a);
                        } else {
                            assert(r@[r0.len() as int] == a);
                        }
                    }
                }
            }
            k = k + 1;
        }
        proof {
            assert forall|a: ArchetypeId| #[trigger] r@.contains(a) <==> self.matches_query(a, ids@, exclude@) by {
                if r@.contains(a) {
                    let q = choose|q: int| 0 <= q < keys@.len() && values@[q] >= n && #[trigger] keys@[q] == a;
                    assert(counts.self_indexed(q));
                    assert(counts.has(a));
                    assert(counts.slot(a) == q);
                    assert(counts.lookup(a) == values@[q]);
                }
                if self.matches_query(a, ids@, exclude@) {
                    assert(counts.has(a));
                    let q = counts.slot(a);
                    assert(keys@[q].spec_key() == a.spec_key());
                    assert(keys@[q] == a);
                    assert(values@[q] == counts.lookup(a));
                    assert(values@[q] >= n);
                }
            }
        }
        r
    }
}

/// The archetypes `a` and `b` differ at most in their tables.
pub open spec fn same_but_table<T>(a: Archetype<T>, b: Archetype<T>) -> bool {
    &&& b.spec_id() == a.spec_id()
    &&& b.component_set() == a.component_set()
    &&& b.edges(EdgeType::Add) == a.edges(EdgeType::Add)
    &&& b.edges(EdgeType::Remove) == a.edges(EdgeType::Remove)
    &&& forall|e: EdgeId, ty: EdgeType| #[trigger] b.edge_target(e, ty) == a.edge_target(e, ty)
}

impl<T> Archetypes<T> {
    /// `e`, where it is recorded, is in a known archetype whose table
    /// records a position for it, in range.
    pub open spec fn removable(&self, e: Entity) -> bool {
        self.entity_map().has(e) ==> {
            let id = self.arch_of(e);
            let t = self.arch(id).tab();
            &&& self.archetype_map().has(id)
            &&& t.row_set().has(e)
            &&& t.row_set().in_range(e)
        }
    }

    /// `new` differs from `self` at most in the archetype `id` and the
    /// entity map.
    pub open spec fn others_kept(&self, new: &Self, id: ArchetypeId) -> bool {
        &&& new.root() == self.root()
        &&& new.component_map() == self.component_map()
        &&& new.archetype_map().key_seq() == self.archetype_map().key_seq()
        &&& new.archetype_map().index_map() == self.archetype_map().index_map()
        &&& new.archetype_map().value_seq() == self.archetype_map().value_seq().update(
            self.archetype_map().slot(id),
            new.arch(id),
        )
    }

    /// `e` is recorded in a known archetype whose table lists it once, at
    /// the position that the table's index records for it.
    pub open spec fn held(&self, e: Entity) -> bool {
        &&& self.entity_map().has(e)
        &&& self.archetype_map().has(self.arch_of(e))
        &&& self.arch(self.arch_of(e)).tab().holds_once(e)
    }

    /// Every entity recorded is held.
    pub open spec fn all_held(&self) -> bool {
        forall|e: Entity| #[trigger] self.entity_map().has(e) ==> self.held(e)
    }

    /// `new` holds `x` where `self` does, in the same archetype, with the
    /// same columns and values.
    pub open spec fn kept_row(&self, new: &Self, x: Entity) -> bool {
        &&& new.held(x)
        &&& new.arch_of(x) == self.arch_of(x)
        &&& new.arch(new.arch_of(x)).tab().col_map().key_seq() == self.arch(self.arch_of(x)).tab().col_map().key_seq()
        &&& forall|k: ColumnKey| #[trigger] new.arch(new.arch_of(x)).tab().item_spec(k, x) == self.arch(
            self.arch_of(x),
        ).tab().item_spec(k, x)
    }

    /// A held entity is kept where it is by doing nothing.
    pub proof fn lemma_kept_row_same(&self, x: Entity)
        requires
            self.held(x),
        ensures
            self.kept_row(self, x),
    {
    }

    /// Keeping an entity's row twice keeps it.
    pub proof fn lemma_kept_row_chain(&self, mid: &Self, new: &Self, x: Entity)
        requires
            self.kept_row(mid, x),
            mid.kept_row(new, x),
        ensures
            self.kept_row(new, x),
    {
        assert forall|k: ColumnKey| #[trigger] new.arch(new.arch_of(x)).tab().item_spec(k, x) == self.arch(
            self.arch_of(x),
        ).tab().item_spec(k, x) by {
            assert(mid.arch(mid.arch_of(x)).tab().item_spec(k, x) == self.arch(self.arch_of(x)).tab().item_spec(k, x));
        }
    }

    /// Taking `y` out keeps every other held entity where it was.
    proof fn lemma_remove_keeps(&self, new: &Self, y: Entity, row: Option<Row<T>>, x: Entity)
        requires
            self.wf(),
            self.held(y),
            self.held(x),
            x.spec_key() != y.spec_key(),
            new.entity_map().same_entry(&self.entity_map(), x),
            self.arch(self.arch_of(y)).tab().removed_row(&new.arch(self.arch_of(y)).tab(), y, row),
            self.others_kept(new, self.arch_of(y)),
        ensures
            self.kept_row(new, x),
    {
        let id = self.arch_of(y);
        let xid = self.arch_of(x);
        let am = self.archetype_map();
        am.lemma_wf();
        assert(am.key_seq()[am.slot(id)].spec_key() == id.spec_key());
        assert(am.key_seq()[am.slot(xid)].spec_key() == xid.spec_key());
        assert(new.archetype_map().has(xid));
        if xid == id {
            let i = am.slot(id);
            assert(am.value_seq()[i].tab().wf());
            assert(am.value_seq()[i].tab().aligned());
            self.arch(id).tab().lemma_removed_keeps(&new.arch(id).tab(), y, row, x);
        } else {
            assert(am.slot(xid) != am.slot(id));
            assert(new.arch(xid) == self.arch(xid));
        }
    }

    /// Records `entity` in the root archetype, with no values.
    pub fn add_entity(&mut self, entity: &Entity)
        requires
            old(self).wf(),
            old(self).archetype_map().has(old(self).root()),
            old(self).arch(old(self).root()).tab().col_map().key_seq().len() == 0,
        ensures
            final(self).wf(),
            exists|r: Option<ArchetypeId>|
                old(self).entity_map().inserted(&final(self).entity_map(), *entity, old(self).root(), r),
            old(self).others_kept(&*final(self), old(self).root()),
            same_but_table(old(self).arch(old(self).root()), final(self).arch(old(self).root())),
            exists|row: Row<T>|
                old(self).arch(old(self).root()).tab().inserted_row(
                    &final(self).arch(old(self).root()).tab(),
                    *entity,
                    row,
                ),
    {
        let root_id = self.root_id;
        let replaced = self.entities.insert(*entity, root_id);
        assert(old(self).entity_map().inserted(&self.entities, *entity, root_id, replaced));
        let ghost before = self.archetypes;
        let row: Row<T> = Row::new();
        let ghost row0 = row;
        proof {
            before.lemma_wf();
            let i = before.slot(root_id);
            assert(before.value_seq()[i].tab().wf());
        }
        match self.archetypes.get_mut(&root_id) {
            Some(archetype) => {
                archetype.insert(entity, row);
            },
            None => {},
        }
        proof {
            let i = before.slot(root_id);
            assert(self.archetypes.value_seq()[i] == self.arch(root_id));
            assert(old(self).arch(root_id).tab().inserted_row(&self.arch(root_id).tab(), *entity, row0));
            assert forall|j: int| 0 <= j < self.archetypes.value_seq().len() implies {
                let a = #[trigger] self.archetypes.value_seq()[j];
                &&& a.tab().wf()
                &&& a.tab().aligned()
                &&& a.spec_id() == self.archetypes.key_seq()[j]
                &&& a.edges_wf()
            } by {
                if j != i {
                    assert(self.archetypes.value_seq()[j] == before.value_seq()[j]);
                }
            }
            old(self).lemma_lists_kept(self);
            assert(old(self).entity_map().inserted(&self.entity_map(), *entity, old(self).root(), replaced));
        }
    }

    /// Takes `entity` out of the entity map and out of the table of its
    /// archetype, handing back the archetype's id and the entity's values.
    pub fn remove_entity(&mut self, entity: &Entity) -> (r: Option<(ArchetypeId, Row<T>)>)
        requires
            old(self).wf(),
            old(self).removable(*entity),
        ensures
            final(self).wf(),
            !old(self).entity_map().has(*entity) ==> r is None && final(self).entity_map().same_contents(
                &old(self).entity_map(),
            ) && final(self).archetype_map() == old(self).archetype_map() && final(self).root()
                == old(self).root() && final(self).component_map() == old(self).component_map(),
            old(self).entity_map().has(*entity) ==> {
                let id = old(self).arch_of(*entity);
                &&& r is Some
                &&& (r->0).0 == id
                &&& old(self).arch(id).tab().removed_row(
                    &final(self).arch(id).tab(),
                    *entity,
                    Some((r->0).1),
                )
                &&& same_but_table(old(self).arch(id), final(self).arch(id))
                &&& old(self).others_kept(&*final(self), id)
                &&& !final(self).entity_map().has(*entity)
                &&& forall|k: Entity|
                    k != *entity ==> #[trigger] final(self).entity_map().same_entry(
                        &old(self).entity_map(),
                        k,
                    )
                &&& forall|k: ColumnKey|
                    #[trigger] (r->0).1.has(k) ==> old(self).arch(id).tab().item_spec(k, *entity) == Some(
                        (r->0).1.value_of(k),
                    )
                &&& old(self).held(*entity) ==> forall|x: Entity|
                    x.spec_key() != entity.spec_key() && old(self).held(x) ==> #[trigger] old(self).kept_row(
                        &*final(self),
                        x,
                    )
            },
    {
        proof {
            self.entities.lemma_wf();
        }
        match self.entities.remove(entity) {
            Some(id) => {
                let ghost before = self.archetypes;
                proof {
                    before.lemma_wf();
                    let i = before.slot(id);
                    assert(before.value_seq()[i].tab().wf());
                    assert(before.value_seq()[i].tab().aligned());
                }
                let mut out: Option<(ArchetypeId, Row<T>)> = None;
                match self.archetypes.get_mut(&id) {
                    Some(archetype) => {
                        let components = archetype.remove(entity).unwrap();
                        out = Some((archetype.id(), components));
                    },
                    None => {},
                }
                proof {
                    let i = before.slot(id);
                    assert(self.archetypes.value_seq()[i] == self.arch(id));
                    assert forall|j: int| 0 <= j < self.archetypes.value_seq().len() implies {
                        let a = #[trigger] self.archetypes.value_seq()[j];
                        &&& a.tab().wf()
                        &&& a.tab().aligned()
                        &&& a.spec_id() == self.archetypes.key_seq()[j]
                        &&& a.edges_wf()
                    } by {
                        if j != i {
                            assert(self.archetypes.value_seq()[j] == before.value_seq()[j]);
                        }
                    }
                    old(self).lemma_lists_kept(self);
                    let row = (out->0).1;
                    assert forall|k: ColumnKey| #[trigger] row.has(k) implies old(self).arch(id).tab().item_spec(
                        k,
                        *entity,
                    ) == Some(row.value_of(k)) by {
                        old(self).lemma_row_keys(id, row, k);
                        old(self).lemma_taken_values(id, *entity, row, k);
                    }
                    if old(self).held(*entity) {
                        assert forall|x: Entity|
                            x.spec_key() != entity.spec_key() && old(self).held(x) implies #[trigger] old(
                            self,
                        ).kept_row(&*self, x) by {
                            assert(x != *entity);
                            old(self).lemma_remove_keeps(&*self, *entity, Some((out->0).1), x);
                        }
                    }
                }
                out
            },
            None => {
                proof {
                    old(self).lemma_lists_kept(self);
                }
                None
            },
        }
    }

    /// The archetype recorded for `entity` records `component`.
    pub fn has_component(&self, entity: &Entity, component: &ComponentId) -> (r: bool)
        requires
            self.wf(),
            self.entity_map().has(*entity) ==> self.archetype_map().has(self.arch_of(*entity)),
        ensures
            r == (self.entity_map().has(*entity) && self.arch(
                self.arch_of(*entity),
            ).component_set().has(*component)),
    {
        match self.entities.get(entity) {
            Some(id) => match self.archetypes.get(id) {
                Some(archetype) => archetype.has_component(component),
                None => false,
            },
            None => false,
        }
    }

    /// The archetype recorded for `entity` records every id of `ids`.
    pub fn has_components(&self, entity: &Entity, ids: DenseSet<ComponentId>) -> (r: bool)
        requires
            self.wf(),
            self.entity_map().has(*entity) ==> self.archetype_map().has(self.arch_of(*entity)),
        ensures
            r == (self.entity_map().has(*entity) && forall|i: int|
                0 <= i < ids.key_seq().len() ==> #[trigger] self.arch(
                    self.arch_of(*entity),
                ).component_set().has(ids.key_seq()[i])),
    {
        match self.entities.get(entity) {
            Some(id) => match self.archetypes.get(id) {
                Some(archetype) => {
                    let keys = ids.keys();
                    let mut i: usize = 0;
                    while i < keys.len()
                        invariant
                            keys@ == ids.key_seq(),
                            i <= keys@.len(),
                            self.entity_map().has(*entity),
                            *archetype == self.arch(self.arch_of(*entity)),
                            forall|j: int| 0 <= j < i ==> #[trigger] archetype.component_set().has(keys@[j]),
                        decreases keys@.len() - i,
                    {
                        if !archetype.has_component(&keys[i]) {
                            proof {
                                assert(*archetype == self.arch(self.arch_of(*entity)));
                                assert(!self.arch(self.arch_of(*entity)).component_set().has(
                                    ids.key_seq()[i as int],
                                ));
                            }
                            return false;
                        }
                        i = i + 1;
                    }
                    true
                },
                None => false,
            },
            None => false,
        }
    }
}

/// What a move between archetypes carries: for an adding move, the ids
/// added and the cells they replaced; for a removing move, the cells taken
/// out.
pub enum MoveType<T> {
    Add(DenseSet<ComponentId>, Row<T>),
    Remove(Row<T>),
}

impl<T> MoveType<T> {
    pub fn edge(&self) -> (r: EdgeType)
        ensures
            r == (match *self {
                MoveType::Add(_, _) => EdgeType::Add,
                MoveType::Remove(_) => EdgeType::Remove,
            }),
    {
        match self {
            MoveType::Add(_, _) => EdgeType::Add,
            MoveType::Remove(_) => EdgeType::Remove,
        }
    }
}

/// A move of an entity from one archetype to another, with the ids it
/// gained and the cells it gave up.
pub struct ArchetypeMove<T> {
    from: ArchetypeId,
    to: ArchetypeId,
    added: DenseSet<ComponentId>,
    removed: Row<T>,
}

impl<T> ArchetypeMove<T> {
    pub closed spec fn source(&self) -> ArchetypeId {
        self.from
    }

    pub closed spec fn target(&self) -> ArchetypeId {
        self.to
    }

    pub closed spec fn added_set(&self) -> DenseSet<ComponentId> {
        self.added
    }

    pub closed spec fn removed_row(&self) -> Row<T> {
        self.removed
    }

    /// A move from `from` to `to` that adds and removes nothing.
    pub fn new(from: ArchetypeId, to: ArchetypeId) -> (r: Self)
        ensures
            r.source() == from,
            r.target() == to,
            r.added_set().key_seq() == Seq::<ComponentId>::empty(),
            r.removed_row().wf(),
            r.removed_row().keys_seq() == Seq::<ColumnKey>::empty(),
    {
        ArchetypeMove { from, to, removed: Row::new(), added: DenseSet::new() }
    }

    pub fn with_added(self, added: DenseSet<ComponentId>) -> (r: Self)
        ensures
            r.source() == self.source(),
            r.target() == self.target(),
            r.added_set() == added,
            r.removed_row() == self.removed_row(),
    {
        let mut m = self;
        m.added = added;
        m
    }

    pub fn with_removed(self, removed: Row<T>) -> (r: Self)
        ensures
            r.source() == self.source(),
            r.target() == self.target(),
            r.added_set() == self.added_set(),
            r.removed_row() == removed,
    {
        let mut m = self;
        m.removed = removed;
        m
    }

    pub fn from(&self) -> (r: ArchetypeId)
        ensures
            r == self.source(),
    {
        self.from
    }

    pub fn to(&self) -> (r: ArchetypeId)
        ensures
            r == self.target(),
    {
        self.to
    }

    pub fn removed(&self) -> (r: &Row<T>)
        ensures
            *r == self.removed_row(),
    {
        &self.removed
    }

    pub fn removed_mut(&mut self) -> (r: &mut Row<T>)
        ensures
            *r == old(self).removed_row(),
            final(self).removed_row() == *final(r),
            final(self).source() == old(self).source(),
            final(self).target() == old(self).target(),
            final(self).added_set() == old(self).added_set(),
    {
        &mut self.removed
    }

    pub fn added(&self) -> (r: &DenseSet<ComponentId>)
        ensures
            *r == self.added_set(),
    {
        &self.added
    }

    pub fn added_mut(&mut self) -> (r: &mut DenseSet<ComponentId>)
        ensures
            *r == old(self).added_set(),
            final(self).added_set() == *final(r),
            final(self).source() == old(self).source(),
            final(self).target() == old(self).target(),
            final(self).removed_row() == old(self).removed_row(),
    {
        &mut self.added
    }
}

impl<T> Archetypes<T> {
    /// Lists `archetype_id` for the component of each key of `components`
    /// where it is not listed yet.
    fn add_archetypes(&mut self, components: &[ColumnKey], archetype_id: ArchetypeId)
        requires
            old(self).component_map().wf(),
            old(self).component_map().is_proper(),
            old(self).lists_proper(),
        ensures
            final(self).component_map().wf(),
            final(self).component_map().is_proper(),
            final(self).lists_proper(),
            final(self).root() == old(self).root(),
            final(self).entity_map() == old(self).entity_map(),
            final(self).archetype_map() == old(self).archetype_map(),
            forall|c: ComponentId|
                #[trigger] final(self).listed_for(c) == listed_once(
                    old(self).listed_for(c),
                    archetype_id,
                    names(components@, c, components@.len() as int),
                ),
            forall|c: ComponentId|
                #[trigger] final(self).listed_for(c).len() >= old(self).listed_for(c).len(),
            forall|c: ComponentId, j: int|
                0 <= j < final(self).listed_for(c).len() ==> #[trigger] final(self).listed_for(c)[j]
                    == (if j < old(self).listed_for(c).len() {
                    old(self).listed_for(c)[j]
                } else {
                    archetype_id
                }),
            forall|i: int|
                0 <= i < components@.len() ==> #[trigger] final(self).listed_for(
                    ComponentId(components@[i].0),
                ).contains(archetype_id),
    {
        let mut i: usize = 0;
        while i < components.len()
            invariant
                i <= components@.len(),
                self.components.wf(),
                self.components.is_proper(),
                self.lists_proper(),
                self.root() == old(self).root(),
                self.entity_map() == old(self).entity_map(),
                self.archetype_map() == old(self).archetype_map(),
                forall|c: ComponentId|
                    #[trigger] self.listed_for(c) == listed_once(
                        old(self).listed_for(c),
                        archetype_id,
                        names(components@, c, i as int),
                    ),
            decreases components@.len() - i,
        {
            let component = components[i].component();
            let ghost prev = *self;
            let ghost before = self.components;
            proof {
                before.lemma_wf();
            }
            match self.components.get_mut(&component) {
                Some(types) => {
                    let ghost t0 = *types;
                    proof {
                        assert(prev.component_map().has(component));
                        assert(t0.is_proper());
                        t0.lemma_proper_listed(archetype_id);
                    }
                    types.insert_unique(archetype_id);
                    proof {
                        before.lemma_update_lookup(&self.components, component, self.components.lookup(component));
                        if t0.has(archetype_id) {
                            assert(self.listed_for(component) == prev.listed_for(component));
                        } else {
                            assert(self.listed_for(component) == prev.listed_for(component).push(archetype_id));
                        }
                    }
                },
                None => {
                    let mut types = DenseSet::new();
                    types.insert_unique(archetype_id);
                    let ghost t1 = types;
                    self.components.insert(component, types);
                    proof {
                        before.lemma_insert_lookup(&self.components, component, t1);
                        assert(self.listed_for(component) =~= prev.listed_for(component).push(archetype_id));
                        assert(t1.is_proper());
                    }
                },
            }
            proof {
                assert forall|c: ComponentId| c != component implies #[trigger] self.listed_for(c) == prev.listed_for(c)
                    && (self.component_map().has(c) ==> self.component_map().lookup(c) == prev.component_map().lookup(c)) by {
                }
                assert forall|c: ComponentId| #[trigger] self.component_map().has(c) implies self.component_map().lookup(c).is_proper() by {
                    if c != component {
                        assert(prev.component_map().has(c));
                    }
                }
                assert forall|c: ComponentId| #[trigger] self.listed_for(c) == listed_once(
                    old(self).listed_for(c),
                    archetype_id,
                    names(components@, c, i + 1),
                ) by {
                    assert(names(components@, c, i + 1) == (names(components@, c, i as int) || c == component));
                    if c == component {
                        let o = old(self).listed_for(c);
                        if names(components@, c, i as int) && !o.contains(archetype_id) {
                            assert(o.push(archetype_id)[o.len() as int] == archetype_id);
                        }
                        if !names(components@, c, i as int) || o.contains(archetype_id) {
                            assert(prev.listed_for(c) == o);
                        }
                    }
                }
            }
            i = i + 1;
        }
        proof {
            assert forall|c: ComponentId, j: int|
                0 <= j < self.listed_for(c).len() implies #[trigger] self.listed_for(c)[j]
                    == (if j < old(self).listed_for(c).len() {
                    old(self).listed_for(c)[j]
                } else {
                    archetype_id
                }) by {
            }
            assert forall|k: int| 0 <= k < components@.len() implies #[trigger] self.listed_for(
                ComponentId(components@[k].0),
            ).contains(archetype_id) by {
                let c = ComponentId(components@[k].0);
                assert(names(components@, c, components@.len() as int));
                let o = old(self).listed_for(c);
                if !o.contains(archetype_id) {
                    assert(o.push(archetype_id)[o.len() as int] == archetype_id);
                }
            }
        }
    }
}

impl<T> Archetypes<T> {
    /// Makes a new archetype for the keys of `components`, holding `entity`
    /// with those values and an edge of the reverse kind back to `from`,
    /// and stores it under its id, in place of any archetype there.
    fn new_edge(
        &mut self,
        entity: &Entity,
        from: &ArchetypeId,
        edge: &EdgeId,
        components: Row<T>,
        ty: EdgeType,
    ) -> (r: ArchetypeId)
        requires
            old(self).wf(),
            components.wf(),
        ensures
            final(self).wf(),
            final(self).root() == old(self).root(),
            final(self).entity_map() == old(self).entity_map(),
            exists|replaced: Option<Archetype<T>>|
                old(self).archetype_map().inserted(
                    &final(self).archetype_map(),
                    r,
                    final(self).arch(r),
                    replaced,
                ),
            final(self).archetype_map().has(r),
            final(self).arch(r).spec_id() == r,
            final(self).arch(r).tab().row_set().key_seq() == seq![*entity],
            final(self).arch(r).tab().row_set().has(*entity),
            final(self).arch(r).tab().row_set().in_range(*entity),
            final(self).arch(r).tab().col_map().key_seq() == components.keys_seq(),
            final(self).arch(r).edge_target(*edge, ty.reverse_spec()) == Some(*from),
            forall|e: EdgeId, t: EdgeType| #[trigger] final(self).arch(r).edge_target(e, t) == (if e
                == *edge && t == ty.reverse_spec() {
                Some(*from)
            } else {
                None
            }),
            forall|i: int|
                0 <= i < components.keys_seq().len() ==> #[trigger] final(self).listed_for(
                    ComponentId(components.keys_seq()[i].0),
                ).contains(r),
    {
        let cols = components.columns();
        let id = ArchetypeId::from_columns(cols);
        let layout = components.table_layout::<Entity>();
        let mut next = Archetype::new(id, layout.build());
        self.add_archetypes(cols, id);
        let ghost mid = *self;
        let ghost tab0 = next.tab();
        proof {
            assert forall|i: int| 0 <= i < tab0.col_map().key_seq().len() implies components.has(
                #[trigger] tab0.col_map().key_seq()[i],
            ) by {
                assert(components.entries().self_indexed(i));
            }
            assert(tab0.aligned());
        }
        next.insert(entity, components);
        let reverse = ty.reverse();
        next.insert_edge(*edge, *from, reverse);
        let ghost before = self.archetypes;
        let ghost next0 = next;
        proof {
            before.lemma_wf();
            assert(next0.tab().row_set().key_seq() =~= seq![*entity]);
        }
        let replaced = self.archetypes.insert(id, next);
        proof {
            assert(self.archetypes.has(id));
            let i = self.archetypes.slot(id);
            assert(self.archetypes.value_seq()[i] == next0);
            assert forall|j: int| 0 <= j < self.archetypes.value_seq().len() implies {
                let a = #[trigger] self.archetypes.value_seq()[j];
                &&& a.tab().wf()
                &&& a.tab().aligned()
                &&& a.spec_id() == self.archetypes.key_seq()[j]
                &&& a.edges_wf()
            } by {
                if j != i {
                    assert(self.archetypes.value_seq()[j] == before.value_seq()[j]);
                    assert(self.archetypes.key_seq()[j] == before.key_seq()[j]);
                }
            }
            assert forall|c: ComponentId, j: int|
                0 <= j < self.listed_for(c).len() implies self.archetype_map().has(
                #[trigger] self.listed_for(c)[j],
            ) by {
                let a = self.listed_for(c)[j];
                assert(mid.listed_for(c) == self.listed_for(c));
                if j < old(self).listed_for(c).len() {
                    assert(old(self).archetype_map().has(old(self).listed_for(c)[j]));
                }
            }
            assert forall|i: int|
                0 <= i < components.keys_seq().len() implies #[trigger] self.listed_for(
                ComponentId(components.keys_seq()[i].0),
            ).contains(id) by {
                assert(mid.listed_for(ComponentId(cols@[i].0)).contains(id));
            }
            assert(old(self).archetype_map().inserted(&self.archetype_map(), id, next0, replaced));
        }
        id
    }
}

impl<T> MoveType<T> {
    pub open spec fn edge_spec(&self) -> EdgeType {
        match *self {
            MoveType::Add(_, _) => EdgeType::Add,
            MoveType::Remove(_) => EdgeType::Remove,
        }
    }
}

impl<T> Archetypes<T> {
    /// Where the edge `edge` of kind `ty` out of `from` leads, where both
    /// archetypes are known.
    pub open spec fn next_of(&self, from: ArchetypeId, edge: EdgeId, ty: EdgeType) -> Option<
        ArchetypeId,
    > {
        if self.archetype_map().has(from) && self.arch(from).edge_target(edge, ty) is Some
            && self.archetype_map().has(self.arch(from).edge_target(edge, ty)->0) {
            self.arch(from).edge_target(edge, ty)
        } else {
            None
        }
    }

    /// Where the edge leads to a known archetype, `row` has a value for each
    /// of its columns.
    pub open spec fn fits(&self, from: ArchetypeId, edge: EdgeId, ty: EdgeType, row: Row<T>) -> bool {
        match self.next_of(from, edge, ty) {
            Some(t) => forall|i: int|
                0 <= i < self.arch(t).tab().col_map().key_seq().len() ==> row.has(
                    #[trigger] self.arch(t).tab().col_map().key_seq()[i],
                ),
            None => true,
        }
    }

    /// The id of the archetype that the edge `edge` of kind `ty` out of
    /// `id` leads to, where both are known.
    fn next_archetype(&self, id: &ArchetypeId, edge: &EdgeId, ty: EdgeType) -> (r: Option<
        ArchetypeId,
    >)
        requires
            self.wf(),
        ensures
            r == self.next_of(*id, *edge, ty),
    {
        let archetype = match self.get(id) {
            Some(a) => a,
            None => {
                return None;
            },
        };
        let next = match archetype.edge(*edge, ty) {
            Some(n) => *n,
            None => {
                return None;
            },
        };
        if self.archetypes.contains(&next) {
            Some(next)
        } else {
            None
        }
    }

    /// Stores `entity` with the values `components` in the archetype that
    /// the edge `edge` out of `from` leads to, making that archetype and
    /// edge where the edge is not known yet, and records it for `entity`.
    fn move_entity(
        &mut self,
        entity: &Entity,
        from: &ArchetypeId,
        edge: &EdgeId,
        components: Row<T>,
        ty: MoveType<T>,
    ) -> (r: Option<ArchetypeMove<T>>)
        requires
            old(self).wf(),
            components.wf(),
            old(self).fits(*from, *edge, ty.edge_spec(), components),
        ensures
            final(self).wf(),
            final(self).root() == old(self).root(),
            r is None ==> !old(self).archetype_map().has(*from) && final(self).entity_map()
                == old(self).entity_map(),
            r is Some ==> {
                let m = r->0;
                let ety = ty.edge_spec();
                &&& m.source() == *from
                &&& final(self).archetype_map().has(m.target())
                &&& final(self).arch(*from).edge_target(*edge, ety) == Some(m.target())
                &&& exists|replaced: Option<ArchetypeId>|
                    old(self).entity_map().inserted(
                        &final(self).entity_map(),
                        *entity,
                        m.target(),
                        replaced,
                    )
                &&& final(self).arch(m.target()).tab().row_set().key_seq().last() == *entity
                &&& final(self).arch(m.target()).tab().row_set().has(*entity)
                &&& final(self).arch(m.target()).tab().row_set().in_range(*entity)
                &&& (match ty {
                    MoveType::Add(added, removed) => m.added_set() == added && m.removed_row()
                        == removed,
                    MoveType::Remove(removed) => m.added_set().key_seq() == Seq::<
                        ComponentId,
                    >::empty() && m.removed_row() == removed,
                })
                &&& old(self).next_of(*from, *edge, ety) is None ==> final(self).arch(
                    m.target(),
                ).tab().col_map().key_seq() == components.keys_seq()
                &&& m.target() != *from ==> final(self).archetype_map().has(*from) && final(self).arch(
                    *from,
                ).tab() == old(self).arch(*from).tab()
                &&& old(self).next_of(*from, *edge, ety) is None ==> forall|e: EdgeId|
                    #[trigger] final(self).arch(m.target()).edge_target(e, ety.reverse_spec()) == (if e
                        == *edge {
                        Some(*from)
                    } else {
                        None
                    })
                &&& old(self).next_of(*from, *edge, ety) is None && m.target() != *from ==> forall|e: EdgeId|
                    #[trigger] final(self).arch(m.target()).edge_target(e, ety) is None
                &&& old(self).next_of(*from, *edge, ety) is Some ==> {
                    let t = old(self).next_of(*from, *edge, ety)->0;
                    &&& m.target() == t
                    &&& old(self).arch(t).tab().inserted_row(
                        &final(self).arch(t).tab(),
                        *entity,
                        components,
                    )
                    &&& same_but_table(old(self).arch(t), final(self).arch(t))
                    &&& old(self).others_kept(&*final(self), t)
                }
            },
    {
        let ghost ty0 = ty;
        let (added, removed, ety) = match ty {
            MoveType::Add(a, rm) => (a, rm, EdgeType::Add),
            MoveType::Remove(rm) => (DenseSet::new(), rm, EdgeType::Remove),
        };
        let ghost comps0 = components;
        assert(ety == ty0.edge_spec());
        let next = match self.next_archetype(from, edge, ety) {
            Some(nid) => {
                let ghost before = self.archetypes;
                proof {
                    before.lemma_wf();
                    let i = before.slot(nid);
                    assert(before.value_seq()[i].tab().wf());
                    assert(before.value_seq()[i].tab().aligned());
                }
                match self.archetypes.get_mut(&nid) {
                    Some(next) => {
                        proof {
                            assert(*next == old(self).arch(nid));
                        }
                        next.insert(entity, components);
                    },
                    None => {},
                }
                proof {
                    let i = before.slot(nid);
                    assert(self.archetypes.value_seq()[i] == self.arch(nid));
                    assert forall|j: int| 0 <= j < self.archetypes.value_seq().len() implies {
                        let a = #[trigger] self.archetypes.value_seq()[j];
                        &&& a.tab().wf()
                        &&& a.tab().aligned()
                        &&& a.spec_id() == self.archetypes.key_seq()[j]
                        &&& a.edges_wf()
                    } by {
                        if j != i {
                            assert(self.archetypes.value_seq()[j] == before.value_seq()[j]);
                        }
                    }
                    old(self).lemma_lists_kept(self);
                    before.lemma_update_lookup(&self.archetypes, nid, self.arch(nid));
                    if *from != nid {
                        assert(self.arch(*from) == old(self).arch(*from));
                    }
                }
                nid
            },
            None => {
                let next_id = self.new_edge(entity, from, edge, components, ety);
                let ghost before = self.archetypes;
                let ghost mid = *self;
                proof {
                    before.lemma_wf();
                }
                match self.archetypes.get_mut(from) {
                    Some(a) => {
                        a.insert_edge(*edge, next_id, ety);
                    },
                    None => {
                        proof {
                            assert(!old(self).archetype_map().has(*from));
                        }
                        return None;
                    },
                }
                proof {
                    let i = before.slot(*from);
                    assert(self.archetypes.value_seq()[i] == self.arch(*from));
                    assert forall|j: int| 0 <= j < self.archetypes.value_seq().len() implies {
                        let a = #[trigger] self.archetypes.value_seq()[j];
                        &&& a.tab().wf()
                        &&& a.tab().aligned()
                        &&& a.spec_id() == self.archetypes.key_seq()[j]
                        &&& a.edges_wf()
                    } by {
                        if j != i {
                            assert(self.archetypes.value_seq()[j] == before.value_seq()[j]);
                        }
                    }
                    mid.lemma_lists_kept(self);
                    before.lemma_update_lookup(&self.archetypes, *from, self.arch(*from));
                    if *from != next_id {
                        assert(self.arch(next_id) == mid.arch(next_id));
                        let rep = choose|replaced: Option<Archetype<T>>|
                            old(self).archetype_map().inserted(
                                &mid.archetype_map(),
                                next_id,
                                mid.arch(next_id),
                                replaced,
                            );
                        old(self).archetype_map().law_get_after_insert(&mid.archetype_map(), next_id, mid.arch(next_id), rep);
                        assert(mid.archetype_map().same_entry(&old(self).archetype_map(), *from));
                        assert(mid.arch(*from) == old(self).arch(*from));
                    }
                }
                next_id
            },
        };
        let m = ArchetypeMove::new(*from, next).with_removed(removed).with_added(added);
        let ghost pre = *self;
        let replaced = self.entities.insert(*entity, next);
        proof {
            assert(pre.entity_map().inserted(&self.entities, *entity, next, replaced));
            pre.lemma_lists_kept(self);
            assert(pre.entity_map() == old(self).entity_map());
            assert(old(self).entity_map().inserted(&self.entity_map(), *entity, next, replaced));
            assert(m.source() == *from);
            assert(m.target() == next);
            match ty0 {
                MoveType::Add(a0, r0) => {
                    assert(m.added_set() == a0);
                    assert(m.removed_row() == r0);
                },
                MoveType::Remove(r0) => {
                    assert(m.removed_row() == r0);
                },
            }
            assert(self.archetype_map().has(next));
            assert(self.arch(*from).edge_target(*edge, ety) == Some(next));
            assert(self.arch(next).tab().row_set().key_seq().last() == *entity);
            assert(self.arch(next).tab().row_set().has(*entity));
            if old(self).next_of(*from, *edge, ety) is Some {
                let t = old(self).next_of(*from, *edge, ety)->0;
                assert(next == t);
                assert(old(self).arch(t).tab().inserted_row(&self.arch(t).tab(), *entity, comps0));
                assert(same_but_table(old(self).arch(t), self.arch(t)));
                assert(old(self).others_kept(&*self, t));
            }
        }
        Some(m)
    }
}

impl<T> Archetypes<T> {
    /// Where the edge `edge` of kind `ty` out of `from` leads to a known
    /// archetype, `ok` holds of each of its columns.
    pub open spec fn fits_with(
        &self,
        from: ArchetypeId,
        edge: EdgeId,
        ty: EdgeType,
        ok: spec_fn(ColumnKey) -> bool,
    ) -> bool {
        match self.next_of(from, edge, ty) {
            Some(t) => forall|i: int|
                0 <= i < self.arch(t).tab().col_map().key_seq().len() ==> ok(
                    #[trigger] self.arch(t).tab().col_map().key_seq()[i],
                ),
            None => true,
        }
    }

    /// Where the edge for the component `id` out of `from` leads to a known
    /// archetype, each of its columns is one of `from` or that of `id`.
    pub open spec fn fits_add_component(&self, from: ArchetypeId, id: ComponentId) -> bool {
        self.fits_with(
            from,
            EdgeId::Component(id),
            EdgeType::Add,
            |k: ColumnKey| self.has_column(from, k) || k == ColumnKey(id.0),
        )
    }

    /// Where the removing edge for the component `id` out of `from` leads to
    /// a known archetype, each of its columns is one of `from` other than
    /// that of `id`.
    pub open spec fn fits_remove_component(&self, from: ArchetypeId, id: ComponentId) -> bool {
        self.fits_with(
            from,
            EdgeId::Component(id),
            EdgeType::Remove,
            |k: ColumnKey| self.has_column(from, k) && k != ColumnKey(id.0),
        )
    }

    /// Whatever adding edge out of `from` is taken, each column of a known
    /// archetype it leads to is one of `from` or of `set`.
    pub open spec fn fits_add_components(&self, from: ArchetypeId, set: Row<T>) -> bool {
        self.fits_all(from, EdgeType::Add, |k: ColumnKey| self.has_column(from, k) || set.has(k))
    }

    /// Whatever removing edge out of `from` is taken, each column of a known
    /// archetype it leads to is one of `from` whose component is not in
    /// `ids`.
    pub open spec fn fits_remove_components(&self, from: ArchetypeId, ids: Seq<ComponentId>) -> bool {
        self.fits_all(
            from,
            EdgeType::Remove,
            |k: ColumnKey| self.has_column(from, k) && !ids.contains(ComponentId(k.0)),
        )
    }

    /// The table of the archetype `id` has a column under `k`.
    pub open spec fn has_column(&self, id: ArchetypeId, k: ColumnKey) -> bool {
        self.arch(id).tab().col_map().has(k)
    }

    /// The table of a known archetype has a column under `k` exactly when
    /// `k` is among its column keys.
    pub proof fn lemma_column_listed(&self, id: ArchetypeId, k: ColumnKey)
        requires
            self.wf(),
            self.archetype_map().has(id),
        ensures
            self.has_column(id, k) <==> self.arch(id).tab().col_map().key_seq().contains(k),
    {
        let i = self.archetype_map().slot(id);
        self.archetype_map().lemma_wf();
        assert(self.archetype_map().value_seq()[i].tab().wf());
        let cols = self.arch(id).tab().col_map();
        cols.lemma_has_iff_listed(k);
        if cols.has(k) {
            let j = choose|j: int| 0 <= j < cols.key_seq().len() && #[trigger] cols.key_seq()[j].spec_key()
                == k.spec_key();
            ColumnKey::lemma_key_injective(cols.key_seq()[j], k);
        }
        if cols.key_seq().contains(k) {
            let j = choose|j: int| 0 <= j < cols.key_seq().len() && cols.key_seq()[j] == k;
            assert(cols.key_seq()[j].spec_key() == k.spec_key());
        }
    }

    /// What a move of `e` that finds it recorded leaves: `e` is recorded in
    /// the archetype the move leads to, whose table holds it in its last row,
    /// and the edge `edge` of kind `ty` out of the archetype it left leads
    /// there.
    pub open spec fn moved(&self, new: &Self, e: Entity, edge: EdgeId, ty: EdgeType, m: ArchetypeMove<T>) -> bool {
        &&& m.source() == self.arch_of(e)
        &&& new.entity_map().has(e)
        &&& new.arch_of(e) == m.target()
        &&& new.archetype_map().has(m.target())
        &&& new.arch(m.source()).edge_target(edge, ty) == Some(m.target())
        &&& new.arch(m.target()).tab().row_set().has(e)
        &&& new.arch(m.target()).tab().row_set().key_seq().last() == e
        &&& new.removable(e)
    }

    proof fn lemma_row_keys(&self, from: ArchetypeId, row: Row<T>, k: ColumnKey)
        requires
            self.wf(),
            self.archetype_map().has(from),
            row.wf(),
            row.keys_seq() == self.arch(from).tab().col_map().key_seq(),
        ensures
            row.has(k) == self.has_column(from, k),
    {
        let i = self.archetype_map().slot(from);
        self.archetype_map().lemma_wf();
        assert(self.archetype_map().value_seq()[i].tab().wf());
        let cols = self.arch(from).tab().col_map();
        row.lemma_has_iff_contains(k);
        cols.lemma_has_iff_listed(k);
        if row.keys_seq().contains(k) {
            let j = choose|j: int| 0 <= j < row.keys_seq().len() && row.keys_seq()[j] == k;
            assert(cols.key_seq()[j].spec_key() == k.spec_key());
        }
        if cols.has(k) {
            let j = choose|j: int|
                0 <= j < cols.key_seq().len() && #[trigger] cols.key_seq()[j].spec_key()
                    == k.spec_key();
            assert(row.keys_seq()[j] == k);
        }
    }

    /// Moves `entity` to the archetype with the component `id` as well,
    /// its value `component` put under the key of `id`; a value already
    /// there comes back in the move.
    pub fn add_component(&mut self, entity: &Entity, id: &ComponentId, component: T) -> (r: Option<
        ArchetypeMove<T>,
    >)
        requires
            old(self).wf(),
            old(self).removable(*entity),
            old(self).entity_map().has(*entity) ==> old(self).fits_add_component(
                old(self).arch_of(*entity),
                *id,
            ),
        ensures
            final(self).wf(),
            final(self).root() == old(self).root(),
            !old(self).entity_map().has(*entity) ==> r is None && final(self).entity_map().same_contents(
                &old(self).entity_map(),
            ) && final(self).archetype_map() == old(self).archetype_map(),
            old(self).entity_map().has(*entity) ==> {
                let m = r->0;
                &&& r is Some
                &&& old(self).moved(&*final(self), *entity, EdgeId::Component(*id), EdgeType::Add, m)
                &&& old(self).next_of(m.source(), EdgeId::Component(*id), EdgeType::Add) is Some ==> m.target()
                    == old(self).next_of(m.source(), EdgeId::Component(*id), EdgeType::Add)->0
                &&& old(self).next_of(m.source(), EdgeId::Component(*id), EdgeType::Add) is None ==> forall|k: ColumnKey|
                    #[trigger] final(self).arch(m.target()).tab().col_map().key_seq().contains(k) <==> (old(self).has_column(m.source(), k) || k == ColumnKey(id.0))
                &&& m.added_set().key_seq() == seq![*id]
                &&& m.removed_row().wf()
                &&& m.removed_row().keys_seq() == (if old(self).has_column(
                    old(self).arch_of(*entity),
                    ColumnKey(id.0),
                ) {
                    seq![ColumnKey(id.0)]
                } else {
                    Seq::<ColumnKey>::empty()
                })
                &&& forall|k: ColumnKey|
                    #[trigger] m.removed_row().has(k) ==> old(self).arch(old(self).arch_of(*entity)).tab().item_spec(
                        k,
                        *entity,
                    ) == Some(m.removed_row().value_of(k))
            },
    {
        let ghost from0 = self.arch_of(*entity);
        let ghost has0 = self.entity_map().has(*entity);
        let (archetype, mut components) = match self.remove_entity(entity) {
            Some(x) => x,
            None => {
                return None;
            },
        };
        let ghost mid = *self;
        let key = id.column();
        proof {
            assert forall|k: ColumnKey| #[trigger] components.has(k) == old(self).has_column(from0, k) by {
                old(self).lemma_row_keys(from0, components, k);
            }
        }
        let mut added = DenseSet::new();
        let mut removed: Row<T> = Row::new();
        let ghost c0 = components;
        let ghost e0 = removed;
        match components.add_cell(key, ColumnCell::from(component)) {
            Some(c) => {
                removed.add_cell(key, c);
                proof {
                    e0.entries().lemma_insert_lookup(&removed.entries(), key, c);
                    assert(c0.has(key));
                    assert(old(self).has_column(from0, key));
                    old(self).lemma_taken_values(from0, *entity, c0, key);
                    c0.entries().lemma_wf();
                }
            },
            None => {},
        }
        proof {
            assert forall|k: ColumnKey| #[trigger] components.has(k) == (c0.has(k) || k == key) by {
            }
            assert(removed.keys_seq() =~= (if c0.has(key) { seq![key] } else { Seq::<ColumnKey>::empty() }));
        }
        let ghost c1 = components;
        components.sort();
        proof {
            assert forall|k: ColumnKey| #[trigger] components.has(k) == (c0.has(k) || k == key) by {
                broadcast use vstd::seq_lib::group_to_multiset_ensures;

                c1.lemma_has_iff_contains(k);
                components.lemma_has_iff_contains(k);
                assert(c1.keys_seq().to_multiset().contains(k) == c1.keys_seq().contains(k));
                assert(components.keys_seq().to_multiset().contains(k) == components.keys_seq().contains(k));
            }
        }
        added.insert_unique(*id);
        let ghost added0 = added;
        let ghost removed0 = removed;
        let edge = EdgeId::from_component(id);
        proof {
            let oa = old(self).archetype_map();
            let ma = mid.archetype_map();
            oa.lemma_update_lookup(&ma, from0, mid.arch(from0));
            assert(mid.next_of(from0, edge, EdgeType::Add) == old(self).next_of(from0, edge, EdgeType::Add));
            if old(self).next_of(from0, edge, EdgeType::Add) is Some {
                let t = old(self).next_of(from0, edge, EdgeType::Add)->0;
                if t != from0 {
                    assert(mid.arch(t) == old(self).arch(t));
                }
                assert(mid.arch(t).tab().col_map().key_seq() == old(self).arch(t).tab().col_map().key_seq());
                assert forall|i: int|
                    0 <= i < mid.arch(t).tab().col_map().key_seq().len() implies components.has(
                    #[trigger] mid.arch(t).tab().col_map().key_seq()[i],
                ) by {
                    let k = mid.arch(t).tab().col_map().key_seq()[i];
                    assert(old(self).arch(t).tab().col_map().key_seq()[i] == k);
                }
            }
            assert(mid.fits(from0, edge, EdgeType::Add, components));
        }
        let ghost comps = components;
        let r = self.move_entity(entity, &archetype, &edge, components, MoveType::Add(added, removed));
        proof {
            let m = r->0;
            mid.entity_map().lemma_insert_lookup(&self.entity_map(), *entity, m.target());
            assert(added0.key_seq() =~= seq![*id]);
            let oa = old(self).archetype_map();
            oa.lemma_update_lookup(&mid.archetype_map(), from0, mid.arch(from0));
            assert(mid.next_of(from0, edge, EdgeType::Add) == old(self).next_of(from0, edge, EdgeType::Add));
            if old(self).next_of(from0, edge, EdgeType::Add) is None {
                assert forall|k: ColumnKey| #[trigger] self.arch(m.target()).tab().col_map().key_seq().contains(k) <==> (
                    old(self).has_column(m.source(), k) || k == ColumnKey(id.0)) by {
                    comps.lemma_has_iff_contains(k);
                }
            }
            assert forall|k: ColumnKey| #[trigger] removed0.has(k) implies old(self).arch(from0).tab().item_spec(
                k,
                *entity,
            ) == Some(removed0.value_of(k)) by {
                removed0.lemma_has_iff_contains(k);
            }
        }
        r
    }
}

impl<T> Archetypes<T> {
    /// Moves `entity` to the archetype without the component `id`; its
    /// value, where it had one, comes back in the move.
    pub fn remove_component(&mut self, entity: &Entity, id: &ComponentId) -> (r: Option<
        ArchetypeMove<T>,
    >)
        requires
            old(self).wf(),
            old(self).removable(*entity),
            old(self).entity_map().has(*entity) ==> old(self).fits_remove_component(
                old(self).arch_of(*entity),
                *id,
            ),
        ensures
            final(self).wf(),
            final(self).root() == old(self).root(),
            !old(self).entity_map().has(*entity) ==> r is None && final(self).entity_map().same_contents(
                &old(self).entity_map(),
            ) && final(self).archetype_map() == old(self).archetype_map(),
            old(self).entity_map().has(*entity) ==> {
                let m = r->0;
                &&& r is Some
                &&& old(self).moved(&*final(self), *entity, EdgeId::Component(*id), EdgeType::Remove, m)
                &&& old(self).next_of(m.source(), EdgeId::Component(*id), EdgeType::Remove) is Some ==> m.target()
                    == old(self).next_of(m.source(), EdgeId::Component(*id), EdgeType::Remove)->0
                &&& old(self).next_of(m.source(), EdgeId::Component(*id), EdgeType::Remove) is None ==> forall|k: ColumnKey|
                    #[trigger] final(self).arch(m.target()).tab().col_map().key_seq().contains(k) <==> (old(self).has_column(m.source(), k) && k != ColumnKey(id.0))
                &&& m.added_set().key_seq() == Seq::<ComponentId>::empty()
                &&& m.removed_row().wf()
                &&& m.removed_row().keys_seq() == (if old(self).has_column(
                    old(self).arch_of(*entity),
                    ColumnKey(id.0),
                ) {
                    seq![ColumnKey(id.0)]
                } else {
                    Seq::<ColumnKey>::empty()
                })
                &&& forall|k: ColumnKey|
                    #[trigger] m.removed_row().has(k) ==> old(self).arch(old(self).arch_of(*entity)).tab().item_spec(
                        k,
                        *entity,
                    ) == Some(m.removed_row().value_of(k))
            },
    {
        let ghost from0 = self.arch_of(*entity);
        let (archetype, mut components) = match self.remove_entity(entity) {
            Some(x) => x,
            None => {
                return None;
            },
        };
        let ghost mid = *self;
        let key = id.column();
        proof {
            assert forall|k: ColumnKey| #[trigger] components.has(k) == old(self).has_column(from0, k) by {
                old(self).lemma_row_keys(from0, components, k);
            }
        }
        let mut removed: Row<T> = Row::new();
        let ghost c0 = components;
        let ghost e0 = removed;
        match components.remove_cell(key) {
            Some(c) => {
                removed.add_cell(key, c);
                proof {
                    e0.entries().lemma_insert_lookup(&removed.entries(), key, c);
                    assert(c0.has(key));
                    assert(old(self).has_column(from0, key));
                    old(self).lemma_taken_values(from0, *entity, c0, key);
                    c0.entries().lemma_wf();
                }
            },
            None => {},
        }
        proof {
            assert forall|k: ColumnKey| #[trigger] components.has(k) == (c0.has(k) && k != key) by {
                if k != key {
                    assert(components.entries().same_entry(&c0.entries(), k));
                }
            }
            assert(removed.keys_seq() =~= (if c0.has(key) { seq![key] } else { Seq::<ColumnKey>::empty() }));
        }
        let edge = EdgeId::from_component(id);
        proof {
            let oa = old(self).archetype_map();
            let ma = mid.archetype_map();
            oa.lemma_update_lookup(&ma, from0, mid.arch(from0));
            assert(mid.next_of(from0, edge, EdgeType::Remove) == old(self).next_of(from0, edge, EdgeType::Remove));
            if old(self).next_of(from0, edge, EdgeType::Remove) is Some {
                let t = old(self).next_of(from0, edge, EdgeType::Remove)->0;
                if t != from0 {
                    assert(mid.arch(t) == old(self).arch(t));
                }
                assert(mid.arch(t).tab().col_map().key_seq() == old(self).arch(t).tab().col_map().key_seq());
                assert forall|i: int|
                    0 <= i < mid.arch(t).tab().col_map().key_seq().len() implies components.has(
                    #[trigger] mid.arch(t).tab().col_map().key_seq()[i],
                ) by {
                    let k = mid.arch(t).tab().col_map().key_seq()[i];
                    assert(old(self).arch(t).tab().col_map().key_seq()[i] == k);
                }
            }
            assert(mid.fits(from0, edge, EdgeType::Remove, components));
        }
        let ghost removed0 = removed;
        let ghost comps = components;
        let r = self.move_entity(entity, &archetype, &edge, components, MoveType::Remove(removed));
        proof {
            let m = r->0;
            mid.entity_map().lemma_insert_lookup(&self.entity_map(), *entity, m.target());
            if old(self).next_of(from0, edge, EdgeType::Remove) is None {
                assert forall|k: ColumnKey| #[trigger] self.arch(m.target()).tab().col_map().key_seq().contains(k) <==> (
                    old(self).has_column(m.source(), k) && k != ColumnKey(id.0)) by {
                    comps.lemma_has_iff_contains(k);
                }
            }
            assert forall|k: ColumnKey| #[trigger] removed0.has(k) implies old(self).arch(from0).tab().item_spec(
                k,
                *entity,
            ) == Some(removed0.value_of(k)) by {
                if k != key {
                    assert(!removed0.keys_seq().contains(k));
                    removed0.lemma_has_iff_contains(k);
                }
            }
        }
        r
    }
}

impl<T> Archetypes<T> {
    /// Whatever edge of kind `ty` out of `from` is taken, `ok` holds of each
    /// column of a known archetype it leads to.
    pub open spec fn fits_all(&self, from: ArchetypeId, ty: EdgeType, ok: spec_fn(ColumnKey) -> bool) -> bool {
        forall|edge: EdgeId| #[trigger] self.fits_with(from, edge, ty, ok)
    }

    /// The row taken out of the table of `id` for `e` holds, under each
    /// column, the value that the table held for `e` there.
    proof fn lemma_taken_values(&self, id: ArchetypeId, e: Entity, row: Row<T>, k: ColumnKey)
        requires
            self.wf(),
            self.archetype_map().has(id),
            self.arch(id).tab().row_set().has(e),
            self.arch(id).tab().row_set().in_range(e),
            row.keys_seq() == self.arch(id).tab().col_map().key_seq(),
            forall|i: int|
                0 <= i < self.arch(id).tab().col_map().key_seq().len() ==> row.value_of(
                    #[trigger] self.arch(id).tab().col_map().key_seq()[i],
                ) == self.arch(id).tab().col_map().value_seq()[i]@[self.arch(id).tab().row_pos(e)],
            self.has_column(id, k),
        ensures
            self.arch(id).tab().item_spec(k, e) == Some(row.value_of(k)),
    {
        let i = self.archetype_map().slot(id);
        self.archetype_map().lemma_wf();
        assert(self.archetype_map().value_seq()[i].tab().wf());
        assert(self.archetype_map().value_seq()[i].tab().aligned());
        let cols = self.arch(id).tab().col_map();
        cols.lemma_wf();
        let j = cols.slot(k);
        assert(cols.key_seq()[j].spec_key() == k.spec_key());
        ColumnKey::lemma_key_injective(cols.key_seq()[j], k);
        assert(row.value_of(cols.key_seq()[j]) == cols.value_seq()[j]@[self.arch(id).tab().row_pos(e)]);
    }

    /// Adding a row to the table of `id` changes no archetype's columns or
    /// edges, so which sets of components an archetype can take stays the
    /// same.
    pub proof fn lemma_add_components_fit_kept(&self, mid: &Self, id: ArchetypeId, from: ArchetypeId, set: Row<T>)
        requires
            self.wf(),
            self.archetype_map().has(id),
            self.others_kept(mid, id),
            same_but_table(self.arch(id), mid.arch(id)),
            mid.arch(id).tab().col_map().key_seq() == self.arch(id).tab().col_map().key_seq(),
            mid.arch(id).tab().col_map().index_map() == self.arch(id).tab().col_map().index_map(),
        ensures
            mid.fits_add_components(from, set) == self.fits_add_components(from, set),
    {
        self.archetype_map().lemma_wf();
        assert forall|a: ArchetypeId| a != id && #[trigger] self.archetype_map().has(a) implies mid.arch(a) == self.arch(a) by {
            assert(self.archetype_map().self_indexed(self.archetype_map().slot(a)));
            assert(self.archetype_map().key_seq()[self.archetype_map().slot(a)].spec_key() == a.spec_key());
            assert(self.archetype_map().key_seq()[self.archetype_map().slot(id)].spec_key() == id.spec_key());
        }
        assert forall|a: ArchetypeId, k: ColumnKey| self.archetype_map().has(a) implies #[trigger] mid.has_column(a, k) == self.has_column(a, k) by {
            if a != id {
                assert(mid.arch(a) == self.arch(a));
            }
        }
        let ok_m = |k: ColumnKey| mid.has_column(from, k) || set.has(k);
        let ok_s = |k: ColumnKey| self.has_column(from, k) || set.has(k);
        if self.archetype_map().has(from) {
            assert(ok_m =~= ok_s);
            assert forall|edge: EdgeId| #[trigger] mid.fits_with(from, edge, EdgeType::Add, ok_s) == self.fits_with(from, edge, EdgeType::Add, ok_s) by {
                if from != id {
                    assert(mid.arch(from) == self.arch(from));
                }
                match self.next_of(from, edge, EdgeType::Add) {
                    Some(t) => {
                        if t != id {
                            assert(mid.arch(t) == self.arch(t));
                        }
                    },
                    None => {},
                }
                match mid.next_of(from, edge, EdgeType::Add) {
                    Some(t) => {
                        if t != id {
                            assert(mid.arch(t) == self.arch(t));
                        }
                    },
                    None => {},
                }
            }
            assert(mid.fits_add_components(from, set) == mid.fits_all(from, EdgeType::Add, ok_m));
            assert(self.fits_add_components(from, set) == self.fits_all(from, EdgeType::Add, ok_s));
            if mid.fits_all(from, EdgeType::Add, ok_s) {
                assert forall|edge: EdgeId| #[trigger] self.fits_with(from, edge, EdgeType::Add, ok_s) by {
                    assert(mid.fits_with(from, edge, EdgeType::Add, ok_s));
                }
            }
            if self.fits_all(from, EdgeType::Add, ok_s) {
                assert forall|edge: EdgeId| #[trigger] mid.fits_with(from, edge, EdgeType::Add, ok_s) by {
                    assert(self.fits_with(from, edge, EdgeType::Add, ok_s));
                }
            }
        } else {
            assert(mid.fits_add_components(from, set) == mid.fits_all(from, EdgeType::Add, ok_m));
            assert(self.fits_add_components(from, set) == self.fits_all(from, EdgeType::Add, ok_s));
            assert forall|edge: EdgeId| #[trigger] mid.fits_with(from, edge, EdgeType::Add, ok_m) by {
            }
            assert forall|edge: EdgeId| #[trigger] self.fits_with(from, edge, EdgeType::Add, ok_s) by {
            }
        }
    }

    proof fn lemma_fits_kept(
        &self,
        mid: &Self,
        from: ArchetypeId,
        edge: EdgeId,
        ty: EdgeType,
        ok: spec_fn(ColumnKey) -> bool,
        row: Row<T>,
    )
        requires
            self.wf(),
            self.archetype_map().has(from),
            self.others_kept(mid, from),
            same_but_table(self.arch(from), mid.arch(from)),
            mid.arch(from).tab().col_map().key_seq() == self.arch(from).tab().col_map().key_seq(),
            self.fits_with(from, edge, ty, ok),
            forall|k: ColumnKey| ok(k) ==> #[trigger] row.has(k),
        ensures
            mid.fits(from, edge, ty, row),
    {
        let oa = self.archetype_map();
        let ma = mid.archetype_map();
        oa.lemma_update_lookup(&ma, from, mid.arch(from));
        assert(mid.next_of(from, edge, ty) == self.next_of(from, edge, ty));
        if self.next_of(from, edge, ty) is Some {
            let t = self.next_of(from, edge, ty)->0;
            if t != from {
                assert(mid.arch(t) == self.arch(t));
            }
            assert forall|i: int|
                0 <= i < mid.arch(t).tab().col_map().key_seq().len() implies row.has(
                #[trigger] mid.arch(t).tab().col_map().key_seq()[i],
            ) by {
                let k = mid.arch(t).tab().col_map().key_seq()[i];
                assert(self.arch(t).tab().col_map().key_seq()[i] == k);
                assert(ok(k));
            }
        }
    }

    /// Moves `entity` to the archetype with the components of `set` as
    /// well, taking their values from `set`; values they replace come back
    /// in the move.
    pub fn add_components(&mut self, entity: &Entity, set: Row<T>) -> (r: Option<ArchetypeMove<T>>)
        requires
            old(self).wf(),
            old(self).removable(*entity),
            set.wf(),
            old(self).entity_map().has(*entity) ==> old(self).fits_add_components(
                old(self).arch_of(*entity),
                set,
            ),
        ensures
            final(self).wf(),
            final(self).root() == old(self).root(),
            !old(self).entity_map().has(*entity) ==> r is None && final(self).entity_map().same_contents(
                &old(self).entity_map(),
            ) && final(self).archetype_map() == old(self).archetype_map(),
            old(self).entity_map().has(*entity) ==> {
                let m = r->0;
                &&& r is Some
                &&& m.source() == old(self).arch_of(*entity)
                &&& final(self).entity_map().has(*entity)
                &&& final(self).arch_of(*entity) == m.target()
                &&& final(self).archetype_map().has(m.target())
                &&& final(self).arch(m.target()).tab().row_set().has(*entity)
                &&& final(self).arch(m.target()).tab().row_set().key_seq().last() == *entity
                &&& final(self).removable(*entity)
                &&& m.target() != m.source() ==> final(self).archetype_map().has(m.source())
                    && final(self).arch(m.source()).tab().col_map().key_seq() == old(self).arch(
                    m.source(),
                ).tab().col_map().key_seq()
                &&& m.added_set().key_seq().len() == set.keys_seq().len()
                &&& forall|i: int|
                    0 <= i < m.added_set().key_seq().len() ==> set.has(
                        ColumnKey(#[trigger] m.added_set().key_seq()[i].0),
                    )
                &&& m.added_set().key_seq().no_duplicates()
                &&& forall|k: ColumnKey|
                    #[trigger] set.has(k) <==> m.added_set().key_seq().contains(ComponentId(k.0))
                &&& m.removed_row().wf()
                &&& forall|k: ColumnKey|
                    #[trigger] m.removed_row().has(k) <==> old(self).has_column(m.source(), k) && set.has(k)
                &&& forall|k: ColumnKey|
                    #[trigger] m.removed_row().has(k) ==> old(self).arch(m.source()).tab().item_spec(
                        k,
                        *entity,
                    ) == Some(m.removed_row().value_of(k))
                &&& exists|o: Seq<ComponentId>, e: EdgeId|
                    {
                        &&& increasing(o)
                        &&& forall|c: ComponentId|
                            #[trigger] o.contains(c) <==> set.has(ColumnKey(c.0)) && old(self).has_column(
                                m.source(),
                                ColumnKey(c.0),
                            )
                        &&& edge_for(o, e)
                        &&& final(self).arch(m.source()).edge_target(e, EdgeType::Add) == Some(m.target())
                        &&& old(self).next_of(m.source(), e, EdgeType::Add) is Some ==> m.target() == old(
                            self,
                        ).next_of(m.source(), e, EdgeType::Add)->0
                        &&& old(self).next_of(m.source(), e, EdgeType::Add) is None ==> forall|k: ColumnKey|
                            #[trigger] final(self).arch(m.target()).tab().col_map().key_seq().contains(k) <==> (
                            old(self).has_column(m.source(), k) || set.has(k))
                        &&& old(self).next_of(m.source(), e, EdgeType::Add) is None ==> forall|e2: EdgeId|
                            #[trigger] final(self).arch(m.target()).edge_target(e2, EdgeType::Remove) == (if e2
                                == e {
                                Some(m.source())
                            } else {
                                None
                            })
                        &&& old(self).next_of(m.source(), e, EdgeType::Add) is None && m.target() != m.source()
                            ==> forall|e2: EdgeId|
                            #[trigger] final(self).arch(m.target()).edge_target(e2, EdgeType::Add) is None
                    }
            },
    {
        let ghost from0 = self.arch_of(*entity);
        let (archetype, mut components) = match self.remove_entity(entity) {
            Some(x) => x,
            None => {
                return None;
            },
        };
        let ghost mid = *self;
        proof {
            assert forall|k: ColumnKey| #[trigger] components.has(k) == old(self).has_column(from0, k) by {
                old(self).lemma_row_keys(from0, components, k);
            }
        }
        let mut added: DenseSet<ComponentId> = DenseSet::new();
        let mut removed: Row<T> = Row::new();
        let mut unique: DenseSet<ComponentId> = DenseSet::new();
        let mut set = set;
        let ghost s0 = set;
        set.sort();
        proof {
            assert forall|k: ColumnKey| #[trigger] set.has(k) == s0.has(k) by {
                broadcast use vstd::seq_lib::group_to_multiset_ensures;

                s0.lemma_has_iff_contains(k);
                set.lemma_has_iff_contains(k);
                assert(s0.keys_seq().to_multiset().contains(k) == s0.keys_seq().contains(k));
                assert(set.keys_seq().to_multiset().contains(k) == set.keys_seq().contains(k));
            }
        }
        let ghost s1 = set;
        let ghost keys = set.keys_seq();
        proof {
            set.entries().lemma_wf();
        }
        let mut items = set.drain();
        let ghost all = items@;
        let ghost c0 = components;
        proof {
            assert forall|j: int| 0 <= j < keys.len() implies s0.has(#[trigger] keys[j]) by {
                s1.lemma_has_iff_contains(keys[j]);
                assert(s1.keys_seq()[j] == keys[j]);
            }
        }
        proof {
            s1.entries().lemma_proper_distinct();
            assert forall|x: int, y: int| 0 <= x < y < keys.len() implies #[trigger] keys[x].0 < #[trigger] keys[y].0 by {
                assert(keys[x].spec_key() != keys[y].spec_key());
                assert(crate::storage::dense::sorted_by_key(keys));
            }
        }
        let n = items.len();
        let mut i: usize = 0;
        while i < n
            invariant
                forall|x: int, y: int| 0 <= x < y < keys.len() ==> #[trigger] keys[x].0 < #[trigger] keys[y].0,
                added.is_proper(),
                unique.is_proper(),
                forall|x: int, j: int|
                    0 <= x < added.key_seq().len() && i <= j < n ==> #[trigger] added.key_seq()[x].0 < #[trigger] keys[j].0,
                forall|x: int, j: int|
                    0 <= x < unique.key_seq().len() && i <= j < n ==> #[trigger] unique.key_seq()[x].0 < #[trigger] keys[j].0,
                forall|x: int, y: int|
                    0 <= x < y < unique.key_seq().len() ==> #[trigger] unique.key_seq()[x].0 < #[trigger] unique.key_seq()[y].0,
                forall|c: ComponentId|
                    #[trigger] unique.key_seq().contains(c) <==> exists|j: int|
                        0 <= j < i && #[trigger] keys[j].0 == c.0 && c0.has(keys[j]),
                forall|k: ColumnKey|
                    #[trigger] components.has(k) == (c0.has(k) || keys.take(i as int).contains(k)),
                forall|k: ColumnKey|
                    #[trigger] components.has(k) && !keys.take(i as int).contains(k) ==> components.value_of(k)
                        == c0.value_of(k),
                forall|k: ColumnKey|
                    #[trigger] removed.has(k) == (c0.has(k) && keys.take(i as int).contains(k)),
                forall|k: ColumnKey| #[trigger] removed.has(k) ==> removed.value_of(k) == c0.value_of(k),
                i <= n,
                n == all.len(),
                all.len() == keys.len(),
                forall|j: int| 0 <= j < all.len() ==> (#[trigger] all[j]).0 == keys[j],
                forall|j: int| 0 <= j < keys.len() ==> s0.has(#[trigger] keys[j]),
                items@ == all.subrange(i as int, n as int),
                components.wf(),
                removed.wf(),
                added.key_seq().len() == i,
                forall|j: int|
                    0 <= j < i ==> (#[trigger] added.key_seq()[j]).0 == keys[j].0,
                forall|k: ColumnKey|
                    #[trigger] components.has(k) ==> c0.has(k) || s0.has(k),
                forall|k: ColumnKey|
                    c0.has(k) ==> #[trigger] components.has(k),
                forall|j: int| 0 <= j < i ==> #[trigger] components.has(keys[j]),
            decreases n - i,
        {
            let (key, cell) = items.remove(0);
            proof {
                assert(all[i as int] == (key, cell));
                assert(key == keys[i as int]);
            }
            let ghost tk = keys.take(i as int);
            proof {
                assert(keys.take(i + 1) =~= tk.push(key));
                if tk.contains(key) {
                    let j = choose|j: int| 0 <= j < tk.len() && tk[j] == key;
                    assert(keys[j].0 < keys[i as int].0);
                }
                let ck = ComponentId(key.0);
                added.lemma_proper_listed(ck);
                if added.key_seq().contains(ck) {
                    let x = choose|x: int| 0 <= x < added.key_seq().len() && added.key_seq()[x] == ck;
                    assert(added.key_seq()[x].0 < keys[i as int].0);
                }
                unique.lemma_proper_listed(ck);
                if unique.key_seq().contains(ck) {
                    let x = choose|x: int| 0 <= x < unique.key_seq().len() && unique.key_seq()[x] == ck;
                    assert(unique.key_seq()[x].0 < keys[i as int].0);
                }
            }
            let ghost a0 = added;
            added.insert_unique(key.component());
            let ghost u0 = unique;
            if components.contains(&key) {
                unique.insert_unique(key.component());
            }
            proof {
                assert forall|c: ComponentId|
                    #[trigger] unique.key_seq().contains(c) <==> exists|j: int|
                        0 <= j < i + 1 && #[trigger] keys[j].0 == c.0 && c0.has(keys[j]) by {
                    if exists|j: int| 0 <= j < i + 1 && #[trigger] keys[j].0 == c.0 && c0.has(keys[j]) {
                        let j = choose|j: int| 0 <= j < i + 1 && #[trigger] keys[j].0 == c.0 && c0.has(keys[j]);
                        if j == i {
                            assert(c == ComponentId(key.0));
                            assert(unique.key_seq()[u0.key_seq().len() as int] == c);
                        } else {
                            assert(u0.key_seq().contains(c));
                            let x = choose|x: int| 0 <= x < u0.key_seq().len() && u0.key_seq()[x] == c;
                            assert(unique.key_seq()[x] == c);
                        }
                    }
                    if unique.key_seq().contains(c) {
                        let x = choose|x: int| 0 <= x < unique.key_seq().len() && unique.key_seq()[x] == c;
                        if x < u0.key_seq().len() {
                            assert(u0.key_seq()[x] == c);
                            assert(u0.key_seq().contains(c));
                        } else {
                            assert(keys[i as int].0 == c.0);
                        }
                    }
                }
            }
            let ghost before = components;
            let ghost rbefore = removed;
            let ghost cell0 = cell;
            let rr = components.add_cell(key, cell);
            proof {
                before.entries().law_get_after_insert(&components.entries(), key, cell0, rr);
            }
            match rr {
                Some(c) => {
                    proof {
                        before.entries().lemma_wf();
                        assert(c@ == before.value_of(key));
                        assert(!rbefore.has(key));
                    }
                    let r2 = removed.add_cell(key, c);
                    proof {
                        rbefore.entries().law_get_after_insert(&removed.entries(), key, c, r2);
                        assert(removed.value_of(key) == c0.value_of(key));
                    }
                },
                None => {
                    proof {
                        assert(!before.has(key));
                        assert(!c0.has(key));
                    }
                },
            }
            proof {
                assert forall|k: ColumnKey| k != key implies #[trigger] removed.has(k) == rbefore.has(k)
                    && (rbefore.has(k) ==> removed.value_of(k) == rbefore.value_of(k)) by {
                    if rr is Some {
                        assert(removed.entries().same_entry(&rbefore.entries(), k));
                    }
                }
                assert(c0.has(key) ==> removed.has(key) && removed.value_of(key) == c0.value_of(key));
                assert(!c0.has(key) ==> !removed.has(key));
            }
            proof {
                let tk1 = keys.take(i + 1);
                assert(items@ =~= all.subrange(i + 1, n as int));
                assert forall|k: ColumnKey| #[trigger] components.has(k) == (before.has(k) || k == key) by {
                    if k.spec_key() == key.spec_key() {
                        assert(k == key);
                    }
                }
                assert forall|k: ColumnKey| #[trigger] components.has(k) == (c0.has(k) || keys.take(i + 1).contains(k)) by {
                    if k == key {
                        assert(tk1[i as int] == key);
                    } else {
                        if keys.take(i + 1).contains(k) {
                            let j = choose|j: int| 0 <= j < i + 1 && #[trigger] tk1[j] == k;
                            assert(tk[j] == k);
                        }
                        if tk.contains(k) {
                            let j = choose|j: int| 0 <= j < i && #[trigger] tk[j] == k;
                            assert(tk1[j] == k);
                        }
                    }
                }
                assert forall|k: ColumnKey| #[trigger] components.has(k) && !keys.take(i + 1).contains(k) implies components.value_of(k)
                    == c0.value_of(k) by {
                    assert(k != key) by {
                        if k == key {
                            assert(tk1[i as int] == key);
                        }
                    }
                    assert(components.entries().same_entry(&before.entries(), k));
                    assert(before.has(k));
                    if tk.contains(k) {
                        let j = choose|j: int| 0 <= j < i && #[trigger] tk[j] == k;
                        assert(tk1[j] == k);
                    }
                }
                assert forall|k: ColumnKey| #[trigger] removed.has(k) == (c0.has(k) && keys.take(i + 1).contains(k)) by {
                    if k == key {
                        assert(tk1[i as int] == key);
                    } else {
                        if keys.take(i + 1).contains(k) {
                            let j = choose|j: int| 0 <= j < i + 1 && #[trigger] tk1[j] == k;
                            assert(tk[j] == k);
                        }
                        if tk.contains(k) {
                            let j = choose|j: int| 0 <= j < i && #[trigger] tk[j] == k;
                            assert(tk1[j] == k);
                        }
                    }
                }
            }
            i = i + 1;
        }
        let ghost c1 = components;
        components.sort();
        proof {
            assert forall|k: ColumnKey| #[trigger] components.has(k) == (c0.has(k) || s0.has(k)) by {
                broadcast use vstd::seq_lib::group_to_multiset_ensures;

                c1.lemma_has_iff_contains(k);
                components.lemma_has_iff_contains(k);
                assert(c1.keys_seq().to_multiset().contains(k) == c1.keys_seq().contains(k));
                assert(components.keys_seq().to_multiset().contains(k) == components.keys_seq().contains(k));
                if s0.has(k) {
                    s1.lemma_has_iff_contains(k);
                    let j = choose|j: int| 0 <= j < keys.len() && keys[j] == k;
                    assert(c1.has(keys[j]));
                }
            }
        }
        let ghost o = unique.key_seq();
        let edge = EdgeId::new(unique.keys());
        proof {
            assert(edge_for(o, edge));
        }
        proof {
            let ok = |k: ColumnKey| old(self).has_column(old(self).arch_of(*entity), k) || s0.has(k);
            assert(old(self).fits_with(from0, edge, EdgeType::Add, ok));
            old(self).lemma_fits_kept(&mid, from0, edge, EdgeType::Add, ok, components);
        }
        let ghost added0 = added;
        let ghost removed0 = removed;
        let ghost comps = components;
        let r = self.move_entity(entity, &archetype, &edge, components, MoveType::Add(added, removed));
        proof {
            let m = r->0;
            mid.entity_map().lemma_insert_lookup(&self.entity_map(), *entity, m.target());
            assert(keys.take(n as int) =~= keys);
            assert forall|k: ColumnKey| #[trigger] keys.contains(k) <==> s0.has(k) by {
                s1.lemma_has_iff_contains(k);
            }
            assert forall|k: ColumnKey| #[trigger] m.removed_row().has(k) <==> old(self).has_column(m.source(), k)
                && s0.has(k) by {
                assert(keys.contains(k) <==> s0.has(k));
            }
            assert forall|k: ColumnKey| #[trigger] m.removed_row().has(k) implies old(self).arch(m.source()).tab().item_spec(
                k,
                *entity,
            ) == Some(m.removed_row().value_of(k)) by {
                assert(c0.has(k));
                old(self).lemma_taken_values(from0, *entity, c0, k);
            }
            assert forall|c: ComponentId| #[trigger] o.contains(c) <==> s0.has(ColumnKey(c.0)) && old(self).has_column(
                m.source(),
                ColumnKey(c.0),
            ) by {
                if o.contains(c) {
                    let j = choose|j: int| 0 <= j < n && #[trigger] keys[j].0 == c.0 && c0.has(keys[j]);
                    assert(keys[j] == ColumnKey(c.0));
                    assert(keys.contains(keys[j]));
                }
                if s0.has(ColumnKey(c.0)) && old(self).has_column(m.source(), ColumnKey(c.0)) {
                    assert(keys.contains(ColumnKey(c.0)));
                    let j = choose|j: int| 0 <= j < keys.len() && keys[j] == ColumnKey(c.0);
                    assert(keys[j].0 == c.0);
                }
            }
            let oa = old(self).archetype_map();
            let ma = mid.archetype_map();
            oa.lemma_update_lookup(&ma, from0, mid.arch(from0));
            assert(mid.next_of(from0, edge, EdgeType::Add) == old(self).next_of(from0, edge, EdgeType::Add));
            if old(self).next_of(from0, edge, EdgeType::Add) is None {
                assert forall|k: ColumnKey| #[trigger] self.arch(m.target()).tab().col_map().key_seq().contains(k) <==> (
                    old(self).has_column(m.source(), k) || s0.has(k)) by {
                    comps.lemma_has_iff_contains(k);
                }
            }
            assert(increasing(o));
            assert({
                &&& increasing(o)
                &&& forall|c: ComponentId|
                    #[trigger] o.contains(c) <==> s0.has(ColumnKey(c.0)) && old(self).has_column(
                        m.source(),
                        ColumnKey(c.0),
                    )
                &&& edge_for(o, edge)
                &&& self.arch(m.source()).edge_target(edge, EdgeType::Add) == Some(m.target())
                &&& old(self).next_of(m.source(), edge, EdgeType::Add) is Some ==> m.target() == old(
                    self,
                ).next_of(m.source(), edge, EdgeType::Add)->0
                &&& old(self).next_of(m.source(), edge, EdgeType::Add) is None ==> forall|k: ColumnKey|
                    #[trigger] self.arch(m.target()).tab().col_map().key_seq().contains(k) <==> (
                    old(self).has_column(m.source(), k) || s0.has(k))
                &&& old(self).next_of(m.source(), edge, EdgeType::Add) is None ==> forall|e2: EdgeId|
                    #[trigger] self.arch(m.target()).edge_target(e2, EdgeType::Remove) == (if e2
                        == edge {
                        Some(m.source())
                    } else {
                        None
                    })
                &&& old(self).next_of(m.source(), edge, EdgeType::Add) is None && m.target() != m.source()
                    ==> forall|e2: EdgeId|
                    #[trigger] self.arch(m.target()).edge_target(e2, EdgeType::Add) is None
            });
            assert forall|j: int| 0 <= j < added0.key_seq().len() implies s0.has(
                ColumnKey(#[trigger] added0.key_seq()[j].0),
            ) by {
                assert(ColumnKey(added0.key_seq()[j].0) == keys[j]);
            }
            assert(s0.keys_seq().len() == keys.len()) by {
                broadcast use vstd::seq_lib::group_to_multiset_ensures;

                assert(s0.keys_seq().to_multiset().len() == s1.keys_seq().to_multiset().len());
            }
            let ak = added0.key_seq();
            s1.entries().lemma_proper_distinct();
            assert forall|a: int, b: int| 0 <= a < ak.len() && 0 <= b < ak.len() && a != b implies ak[a] != ak[b] by {
                if a < b {
                    assert(keys[a].spec_key() != keys[b].spec_key());
                } else {
                    assert(keys[b].spec_key() != keys[a].spec_key());
                }
            }
            assert forall|k: ColumnKey| #[trigger] s0.has(k) <==> ak.contains(ComponentId(k.0)) by {
                s1.lemma_has_iff_contains(k);
                if s0.has(k) {
                    let j = choose|j: int| 0 <= j < keys.len() && keys[j] == k;
                    assert(ak[j].0 == k.0);
                    assert(ak[j] == ComponentId(k.0));
                }
                if ak.contains(ComponentId(k.0)) {
                    let j = choose|j: int| 0 <= j < ak.len() && ak[j] == ComponentId(k.0);
                    assert(keys[j].0 == k.0);
                    assert(keys[j] == k);
                    assert(s1.keys_seq()[j] == k);
                }
            }
        }
        r
    }

    /// Moves `entity` to the archetype without the components `ids`; their
    /// values, where it had them, come back in the move.
    pub fn remove_components(&mut self, entity: &Entity, ids: DenseSet<ComponentId>) -> (r: Option<
        ArchetypeMove<T>,
    >)
        requires
            old(self).wf(),
            old(self).removable(*entity),
            old(self).entity_map().has(*entity) ==> old(self).fits_remove_components(
                old(self).arch_of(*entity),
                ids.key_seq(),
            ),
        ensures
            final(self).wf(),
            final(self).root() == old(self).root(),
            !old(self).entity_map().has(*entity) ==> r is None && final(self).entity_map().same_contents(
                &old(self).entity_map(),
            ) && final(self).archetype_map() == old(self).archetype_map(),
            old(self).entity_map().has(*entity) ==> {
                let m = r->0;
                &&& r is Some
                &&& m.source() == old(self).arch_of(*entity)
                &&& final(self).entity_map().has(*entity)
                &&& final(self).arch_of(*entity) == m.target()
                &&& final(self).archetype_map().has(m.target())
                &&& final(self).arch(m.target()).tab().row_set().has(*entity)
                &&& final(self).arch(m.target()).tab().row_set().key_seq().last() == *entity
                &&& final(self).removable(*entity)
                &&& m.added_set().key_seq() == Seq::<ComponentId>::empty()
                &&& m.removed_row().wf()
                &&& forall|k: ColumnKey|
                    #[trigger] m.removed_row().has(k) <==> old(self).has_column(
                        old(self).arch_of(*entity),
                        k,
                    ) && ids.key_seq().contains(ComponentId(k.0))
                &&& forall|k: ColumnKey|
                    #[trigger] m.removed_row().has(k) ==> old(self).arch(old(self).arch_of(*entity)).tab().item_spec(
                        k,
                        *entity,
                    ) == Some(m.removed_row().value_of(k))
            },
    {
        let ghost from0 = self.arch_of(*entity);
        let (archetype, mut components) = match self.remove_entity(entity) {
            Some(x) => x,
            None => {
                return None;
            },
        };
        let ghost mid = *self;
        proof {
            assert forall|k: ColumnKey| #[trigger] components.has(k) == old(self).has_column(from0, k) by {
                old(self).lemma_row_keys(from0, components, k);
            }
        }
        let ghost c0 = components;
        let mut removed: Row<T> = Row::new();
        let keys = ids.keys();
        let mut i: usize = 0;
        while i < keys.len()
            invariant
                i <= keys@.len(),
                keys@ == ids.key_seq(),
                components.wf(),
                removed.wf(),
                forall|k: ColumnKey|
                    #[trigger] components.has(k) == (c0.has(k) && !keys@.subrange(0, i as int).contains(
                        ComponentId(k.0),
                    )),
                forall|k: ColumnKey|
                    #[trigger] removed.has(k) <==> c0.has(k) && keys@.subrange(0, i as int).contains(
                        ComponentId(k.0),
                    ),
                forall|k: ColumnKey| #[trigger] removed.has(k) ==> removed.value_of(k) == c0.value_of(k),
                forall|k: ColumnKey| #[trigger] components.has(k) ==> components.value_of(k) == c0.value_of(k),
            decreases keys@.len() - i,
        {
            let key = keys[i].column();
            let ghost before = components;
            let ghost rbefore = removed;
            match components.remove_cell(key) {
                Some(c) => {
                    removed.add_cell(key, c);
                    proof {
                        before.entries().lemma_wf();
                        assert(before.has(key));
                        assert(c@ == before.value_of(key));
                        if rbefore.has(key) {
                            assert(false);
                        }
                        rbefore.entries().lemma_insert_lookup(&removed.entries(), key, c);
                    }
                },
                None => {},
            }
            proof {
                let s0 = keys@.subrange(0, i as int);
                let s1 = keys@.subrange(0, i + 1);
                assert(s1 == s0.push(keys@[i as int]));
                assert forall|k: ColumnKey| #[trigger] components.has(k) == (c0.has(k) && !s1.contains(
                    ComponentId(k.0),
                )) by {
                    let cid = ComponentId(k.0);
                    if s0.contains(cid) {
                        let j = choose|j: int| 0 <= j < s0.len() && s0[j] == cid;
                        assert(s1[j] == cid);
                    }
                    if k != key {
                        assert(components.entries().same_entry(&before.entries(), k));
                        assert(keys@[i as int] != cid);
                        if s1.contains(cid) {
                            let j = choose|j: int| 0 <= j < s1.len() && s1[j] == cid;
                            if j < i {
                                assert(s0[j] == cid);
                            }
                        }
                        assert(before.has(k) == (c0.has(k) && !s0.contains(cid)));
                    } else {
                        assert(s1[i as int] == cid);
                    }
                }
                assert forall|k: ColumnKey| #[trigger] removed.has(k) <==> c0.has(k) && s1.contains(
                    ComponentId(k.0),
                ) by {
                    let cid = ComponentId(k.0);
                    if k == key {
                        assert(s1[i as int] == cid);
                        if c0.has(k) && !before.has(k) {
                            assert(s0.contains(cid));
                        }
                    } else {
                        assert(keys@[i as int] != cid);
                        if rbefore.has(k) {
                            let j = choose|j: int| 0 <= j < s0.len() && s0[j] == cid;
                            assert(s1[j] == cid);
                        }
                        if s1.contains(cid) {
                            let j = choose|j: int| 0 <= j < s1.len() && s1[j] == cid;
                            if j < i {
                                assert(s0[j] == cid);
                            }
                        }
                    }
                }
                assert forall|k: ColumnKey| #[trigger] removed.has(k) implies removed.value_of(k) == c0.value_of(k) by {
                    if k != key {
                        assert(rbefore.has(k));
                    }
                }
                assert forall|k: ColumnKey| #[trigger] components.has(k) implies components.value_of(k) == c0.value_of(k) by {
                    assert(k != key);
                    assert(components.entries().same_entry(&before.entries(), k));
                    assert(before.has(k));
                    assert(before.value_of(k) == c0.value_of(k));
                }
            }
            i = i + 1;
        }
        proof {
            assert(keys@.subrange(0, keys@.len() as int) == keys@);
        }
        let edge = EdgeId::from_columns(removed.columns());
        proof {
            let ok = |k: ColumnKey| old(self).has_column(old(self).arch_of(*entity), k) && !ids.key_seq().contains(
                ComponentId(k.0),
            );
            assert(old(self).fits_with(from0, edge, EdgeType::Remove, ok));
            old(self).lemma_fits_kept(&mid, from0, edge, EdgeType::Remove, ok, components);
        }
        let ghost removed0 = removed;
        let r = self.move_entity(entity, &archetype, &edge, components, MoveType::Remove(removed));
        proof {
            let m = r->0;
            mid.entity_map().lemma_insert_lookup(&self.entity_map(), *entity, m.target());
            assert forall|k: ColumnKey| #[trigger] removed0.has(k) implies old(self).arch(from0).tab().item_spec(
                k,
                *entity,
            ) == Some(removed0.value_of(k)) by {
                assert(c0.has(k));
                old(self).lemma_taken_values(from0, *entity, c0, k);
            }
        }
        r
    }
}


impl<T> Archetypes<T> {
    /// The root archetype is known and its table has no columns.
    pub fn can_add_entity(&self) -> (r: bool)
        requires
            self.wf(),
        ensures
            r == (self.archetype_map().has(self.root()) && self.arch(self.root()).tab().col_map().key_seq().len()
                == 0),
    {
        match self.archetypes.get(&self.root_id) {
            Some(root) => root.table.columns().len() == 0,
            None => false,
        }
    }

    /// `remove_entity(entity)` may be called.
    pub fn can_remove(&self, entity: &Entity) -> (r: bool)
        requires
            self.wf(),
        ensures
            r == self.removable(*entity),
    {
        match self.entities.get(entity) {
            Some(id) => match self.archetypes.get(id) {
                Some(archetype) => match archetype.table.row_index(*entity) {
                    Some(p) => p < archetype.table.row_count(),
                    None => false,
                },
                None => false,
            },
            None => true,
        }
    }

    /// Each column of the table of `t`, where `t` is known, is a column of
    /// `from`, or that of `extra` where `adding`, or not that of `extra`
    /// where not `adding`.
    fn columns_fit_one(&self, t: &ArchetypeId, from: &ArchetypeId, extra: ColumnKey, adding: bool) -> (r: bool)
        requires
            self.wf(),
            self.archetype_map().has(*t),
            self.archetype_map().has(*from),
        ensures
            r == forall|i: int|
                0 <= i < self.arch(*t).tab().col_map().key_seq().len() ==> {
                    let k = #[trigger] self.arch(*t).tab().col_map().key_seq()[i];
                    if adding {
                        self.has_column(*from, k) || k == extra
                    } else {
                        self.has_column(*from, k) && k != extra
                    }
                },
    {
        let target = self.archetypes.get(t).unwrap();
        let source = self.archetypes.get(from).unwrap();
        let cols = target.table.columns();
        let mut i: usize = 0;
        while i < cols.len()
            invariant
                *target == self.arch(*t),
                *source == self.arch(*from),
                cols@ == self.arch(*t).tab().col_map().key_seq(),
                i <= cols@.len(),
                forall|j: int|
                    0 <= j < i ==> {
                        let k = #[trigger] cols@[j];
                        if adding {
                            self.has_column(*from, k) || k == extra
                        } else {
                            self.has_column(*from, k) && k != extra
                        }
                    },
            decreases cols@.len() - i,
        {
            let k = cols[i];
            let ok = if adding {
                source.table.has_column(&k) || k == extra
            } else {
                source.table.has_column(&k) && k != extra
            };
            if !ok {
                return false;
            }
            i = i + 1;
        }
        true
    }

    /// `add_component(entity, id, ..)` may be called, as far as the edge it
    /// takes goes.
    pub fn can_add_component(&self, entity: &Entity, id: &ComponentId) -> (r: bool)
        requires
            self.wf(),
            self.removable(*entity),
        ensures
            r == (self.entity_map().has(*entity) ==> self.fits_add_component(self.arch_of(*entity), *id)),
    {
        let from = match self.entities.get(entity) {
            Some(f) => *f,
            None => {
                return true;
            },
        };
        let edge = EdgeId::Component(*id);
        match self.next_archetype(&from, &edge, EdgeType::Add) {
            Some(t) => self.columns_fit_one(&t, &from, id.column(), true),
            None => true,
        }
    }

    /// `remove_component(entity, id)` may be called, as far as the edge it
    /// takes goes.
    pub fn can_remove_component(&self, entity: &Entity, id: &ComponentId) -> (r: bool)
        requires
            self.wf(),
            self.removable(*entity),
        ensures
            r == (self.entity_map().has(*entity) ==> self.fits_remove_component(self.arch_of(*entity), *id)),
    {
        let from = match self.entities.get(entity) {
            Some(f) => *f,
            None => {
                return true;
            },
        };
        let edge = EdgeId::Component(*id);
        match self.next_archetype(&from, &edge, EdgeType::Remove) {
            Some(t) => self.columns_fit_one(&t, &from, id.column(), false),
            None => true,
        }
    }
}

/// `ids` holds `c`.
fn slice_contains(ids: &[ComponentId], c: ComponentId) -> (r: bool)
    ensures
        r == ids@.contains(c),
{
    let mut i: usize = 0;
    while i < ids.len()
        invariant
            i <= ids@.len(),
            forall|j: int| 0 <= j < i ==> ids@[j] != c,
        decreases ids@.len() - i,
    {
        if ids[i] == c {
            proof {
                assert(ids@[i as int] == c);
            }
            return true;
        }
        i = i + 1;
    }
    false
}

impl<T> Archetypes<T> {
    /// Each column of the table of `t` is a column of `from` or one of
    /// `set`.
    fn columns_fit_set(&self, t: &ArchetypeId, from: &ArchetypeId, set: &Row<T>) -> (r: bool)
        requires
            self.wf(),
            self.archetype_map().has(*t),
            self.archetype_map().has(*from),
        ensures
            r == forall|i: int|
                0 <= i < self.arch(*t).tab().col_map().key_seq().len() ==> {
                    let k = #[trigger] self.arch(*t).tab().col_map().key_seq()[i];
                    self.has_column(*from, k) || set.has(k)
                },
    {
        let target = self.archetypes.get(t).unwrap();
        let source = self.archetypes.get(from).unwrap();
        let cols = target.table.columns();
        let mut i: usize = 0;
        while i < cols.len()
            invariant
                *target == self.arch(*t),
                *source == self.arch(*from),
                cols@ == self.arch(*t).tab().col_map().key_seq(),
                i <= cols@.len(),
                forall|j: int|
                    0 <= j < i ==> {
                        let k = #[trigger] cols@[j];
                        self.has_column(*from, k) || set.has(k)
                    },
            decreases cols@.len() - i,
        {
            let k = cols[i];
            if !(source.table.has_column(&k) || set.contains(&k)) {
                return false;
            }
            i = i + 1;
        }
        true
    }

    /// Each column of the table of `t` is a column of `from` whose
    /// component is not in `ids`.
    fn columns_fit_without(&self, t: &ArchetypeId, from: &ArchetypeId, ids: &[ComponentId]) -> (r: bool)
        requires
            self.wf(),
            self.archetype_map().has(*t),
            self.archetype_map().has(*from),
        ensures
            r == forall|i: int|
                0 <= i < self.arch(*t).tab().col_map().key_seq().len() ==> {
                    let k = #[trigger] self.arch(*t).tab().col_map().key_seq()[i];
                    self.has_column(*from, k) && !ids@.contains(ComponentId(k.0))
                },
    {
        let target = self.archetypes.get(t).unwrap();
        let source = self.archetypes.get(from).unwrap();
        let cols = target.table.columns();
        let mut i: usize = 0;
        while i < cols.len()
            invariant
                *target == self.arch(*t),
                *source == self.arch(*from),
                cols@ == self.arch(*t).tab().col_map().key_seq(),
                i <= cols@.len(),
                forall|j: int|
                    0 <= j < i ==> {
                        let k = #[trigger] cols@[j];
                        self.has_column(*from, k) && !ids@.contains(ComponentId(k.0))
                    },
            decreases cols@.len() - i,
        {
            let k = cols[i];
            if !(source.table.has_column(&k) && !slice_contains(ids, k.component())) {
                return false;
            }
            i = i + 1;
        }
        true
    }

    /// `add_components(entity, set)` may be called, whatever edge it takes.
    pub fn can_add_components(&self, entity: &Entity, set: &Row<T>) -> (r: bool)
        requires
            self.wf(),
            self.removable(*entity),
        ensures
            r == (self.entity_map().has(*entity) ==> self.fits_add_components(self.arch_of(*entity), *set)),
    {
        let from = match self.entities.get(entity) {
            Some(f) => *f,
            None => {
                return true;
            },
        };
        let source = self.archetypes.get(&from).unwrap();
        proof {
            let i = self.archetypes.slot(from);
            self.archetypes.lemma_wf();
            assert(self.archetypes.value_seq()[i].edges_wf());
        }
        let edges = source.add_edges.edges();
        let ghost ok = |k: ColumnKey| self.has_column(from, k) || set.has(k);
        let mut i: usize = 0;
        while i < edges.len()
            invariant
                self.wf(),
                self.archetype_map().has(from),
                self.entity_map().has(*entity),
                from == self.arch_of(*entity),
                *source == self.arch(from),
                ok == (|k: ColumnKey| self.has_column(from, k) || set.has(k)),
                forall|e: EdgeId| #[trigger] source.add_edges.target(e) is Some ==> edges@.contains(e),
                i <= edges@.len(),
                forall|j: int| 0 <= j < i ==> self.fits_with(from, #[trigger] edges@[j], EdgeType::Add, ok),
            decreases edges@.len() - i,
        {
            let e = edges[i];
            match self.next_archetype(&from, &e, EdgeType::Add) {
                Some(t) => {
                    if !self.columns_fit_set(&t, &from, set) {
                        proof {
                            assert(!self.fits_with(from, e, EdgeType::Add, ok));
                            assert(!self.fits_all(from, EdgeType::Add, ok));
                            assert(self.fits_add_components(from, *set) == self.fits_all(from, EdgeType::Add, ok));
                        }
                        return false;
                    }
                },
                None => {},
            }
            i = i + 1;
        }
        proof {
            assert forall|e: EdgeId| #[trigger] self.fits_with(from, e, EdgeType::Add, ok) by {
                if self.next_of(from, e, EdgeType::Add) is Some {
                    assert(source.add_edges.target(e) is Some);
                    let j = choose|j: int| 0 <= j < edges@.len() && edges@[j] == e;
                    assert(self.fits_with(from, edges@[j], EdgeType::Add, ok));
                }
            }
        }
        true
    }

    /// `remove_components(entity, ids)` may be called, whatever edge it
    /// takes.
    pub fn can_remove_components(&self, entity: &Entity, ids: &DenseSet<ComponentId>) -> (r: bool)
        requires
            self.wf(),
            self.removable(*entity),
        ensures
            r == (self.entity_map().has(*entity) ==> self.fits_remove_components(
                self.arch_of(*entity),
                ids.key_seq(),
            )),
    {
        let from = match self.entities.get(entity) {
            Some(f) => *f,
            None => {
                return true;
            },
        };
        let source = self.archetypes.get(&from).unwrap();
        proof {
            let i = self.archetypes.slot(from);
            self.archetypes.lemma_wf();
            assert(self.archetypes.value_seq()[i].edges_wf());
        }
        let keys = ids.keys();
        let edges = source.remove_edges.edges();
        let ghost ok = |k: ColumnKey| self.has_column(from, k) && !ids.key_seq().contains(ComponentId(k.0));
        let mut i: usize = 0;
        while i < edges.len()
            invariant
                self.wf(),
                self.archetype_map().has(from),
                self.entity_map().has(*entity),
                from == self.arch_of(*entity),
                *source == self.arch(from),
                keys@ == ids.key_seq(),
                ok == (|k: ColumnKey| self.has_column(from, k) && !ids.key_seq().contains(ComponentId(k.0))),
                forall|e: EdgeId| #[trigger] source.remove_edges.target(e) is Some ==> edges@.contains(e),
                i <= edges@.len(),
                forall|j: int| 0 <= j < i ==> self.fits_with(from, #[trigger] edges@[j], EdgeType::Remove, ok),
            decreases edges@.len() - i,
        {
            let e = edges[i];
            match self.next_archetype(&from, &e, EdgeType::Remove) {
                Some(t) => {
                    if !self.columns_fit_without(&t, &from, keys) {
                        proof {
                            assert(!self.fits_with(from, e, EdgeType::Remove, ok));
                            assert(!self.fits_all(from, EdgeType::Remove, ok));
                            assert(self.fits_remove_components(from, ids.key_seq()) == self.fits_all(
                                from,
                                EdgeType::Remove,
                                ok,
                            ));
                        }
                        return false;
                    }
                },
                None => {},
            }
            i = i + 1;
        }
        proof {
            assert forall|e: EdgeId| #[trigger] self.fits_with(from, e, EdgeType::Remove, ok) by {
                if self.next_of(from, e, EdgeType::Remove) is Some {
                    assert(source.remove_edges.target(e) is Some);
                    let j = choose|j: int| 0 <= j < edges@.len() && edges@[j] == e;
                    assert(self.fits_with(from, edges@[j], EdgeType::Remove, ok));
                }
            }
        }
        true
    }
}

} // verus!
