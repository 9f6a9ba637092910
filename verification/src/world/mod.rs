use crate::archetype::{ArchetypeId, ArchetypeMove, Archetypes, EdgeId, EdgeType};
use crate::entity::{Entities, Entity};
use crate::event::{of_kind, ErasedEvent, EventOutputs, Events};
use crate::ids::{ColumnKey, ComponentId};
use crate::key::Key;
use crate::storage::dense::{DenseMap, DenseSet};
use crate::resource::{BaseResouces, LocalResources, ResourceType, Resources};
use crate::storage::table::Row;
use events::{
    AddChildren, AddComponent, AddComponents, ComponentEvents, Despawn, ParentUpdate,
    RemoveChildren, RemoveComponent, RemoveComponents, RemovedComponent, SetParent, Spawn, ADD_CHILDREN_PRIORITY,
    DESPAWN_PRIORITY, REMOVE_CHILDREN_PRIORITY, SET_PARENT_PRIORITY, SPAWN_PRIORITY,
};
use vstd::prelude::*;

pub mod events;

verus! {

/// The number of the kind of spawn events.
pub const SPAWN: u64 = 1;

/// The number of the kind of despawn events.
pub const DESPAWN: u64 = 2;

/// The number of the kind of parent events.
pub const SET_PARENT: u64 = 3;

/// The number of the kind of events that add children.
pub const ADD_CHILDREN: u64 = 4;

/// The number of the kind of events that remove children.
pub const REMOVE_CHILDREN: u64 = 5;

/// The number of the kind of events that add one component.
pub const ADD_COMPONENT: u64 = 6;

/// The number of the kind of events that add several components.
pub const ADD_COMPONENTS: u64 = 7;

/// The number of the kind of events that remove one component.
pub const REMOVE_COMPONENT: u64 = 8;

/// The number of the kind of events that remove several components.
pub const REMOVE_COMPONENTS: u64 = 9;

/// The requests that a world carries out when it is flushed.
pub enum WorldEvent<T> {
    Spawn(Spawn<T>),
    Despawn(Despawn),
    SetParent(SetParent),
    AddChildren(AddChildren),
    RemoveChildren(RemoveChildren),
    AddComponent(AddComponent<T>),
    AddComponents(AddComponents<T>),
    RemoveComponent(RemoveComponent),
    RemoveComponents(RemoveComponents),
}

impl<T> WorldEvent<T> {
    pub open spec fn kind_spec(&self) -> u64 {
        match self {
            WorldEvent::Spawn(_) => SPAWN,
            WorldEvent::Despawn(_) => DESPAWN,
            WorldEvent::SetParent(_) => SET_PARENT,
            WorldEvent::AddChildren(_) => ADD_CHILDREN,
            WorldEvent::RemoveChildren(_) => REMOVE_CHILDREN,
            WorldEvent::AddComponent(_) => ADD_COMPONENT,
            WorldEvent::AddComponents(_) => ADD_COMPONENTS,
            WorldEvent::RemoveComponent(_) => REMOVE_COMPONENT,
            WorldEvent::RemoveComponents(_) => REMOVE_COMPONENTS,
        }
    }

    pub open spec fn priority_spec(&self) -> i32 {
        match self {
            WorldEvent::Spawn(_) => SPAWN_PRIORITY,
            WorldEvent::Despawn(_) => DESPAWN_PRIORITY,
            WorldEvent::SetParent(_) => SET_PARENT_PRIORITY,
            WorldEvent::AddChildren(_) => ADD_CHILDREN_PRIORITY,
            WorldEvent::RemoveChildren(_) => REMOVE_CHILDREN_PRIORITY,
            WorldEvent::AddComponent(_) => SET_PARENT_PRIORITY,
            WorldEvent::AddComponents(_) => SET_PARENT_PRIORITY,
            WorldEvent::RemoveComponent(_) => ADD_CHILDREN_PRIORITY,
            WorldEvent::RemoveComponents(_) => ADD_CHILDREN_PRIORITY,
        }
    }

    /// The number of the kind of this event.
    pub fn kind(&self) -> (r: u64)
        ensures
            r == self.kind_spec(),
    {
        match self {
            WorldEvent::Spawn(_) => SPAWN,
            WorldEvent::Despawn(_) => DESPAWN,
            WorldEvent::SetParent(_) => SET_PARENT,
            WorldEvent::AddChildren(_) => ADD_CHILDREN,
            WorldEvent::RemoveChildren(_) => REMOVE_CHILDREN,
            WorldEvent::AddComponent(_) => ADD_COMPONENT,
            WorldEvent::AddComponents(_) => ADD_COMPONENTS,
            WorldEvent::RemoveComponent(_) => REMOVE_COMPONENT,
            WorldEvent::RemoveComponents(_) => REMOVE_COMPONENTS,
        }
    }

    /// The priority of the kind of this event.
    pub fn priority(&self) -> (r: i32)
        ensures
            r == self.priority_spec(),
    {
        match self {
            WorldEvent::Spawn(_) => SPAWN_PRIORITY,
            WorldEvent::Despawn(_) => DESPAWN_PRIORITY,
            WorldEvent::SetParent(_) => SET_PARENT_PRIORITY,
            WorldEvent::AddChildren(_) => ADD_CHILDREN_PRIORITY,
            WorldEvent::RemoveChildren(_) => REMOVE_CHILDREN_PRIORITY,
            WorldEvent::AddComponent(_) => SET_PARENT_PRIORITY,
            WorldEvent::AddComponents(_) => SET_PARENT_PRIORITY,
            WorldEvent::RemoveComponent(_) => ADD_CHILDREN_PRIORITY,
            WorldEvent::RemoveComponents(_) => ADD_CHILDREN_PRIORITY,
        }
    }

    /// The rows this event carries are well formed.
    pub open spec fn wf(&self) -> bool {
        match self {
            WorldEvent::Spawn(s) => s.components.wf(),
            WorldEvent::AddComponents(a) => a.components.wf(),
            _ => true,
        }
    }

    /// This event, with the number of its kind.
    pub closed spec fn erase_spec(self) -> ErasedEvent<WorldEvent<T>> {
        ErasedEvent::new_spec(self.kind_spec(), self)
    }

    /// This event, with the number of its kind.
    pub fn erase(self) -> (r: ErasedEvent<WorldEvent<T>>)
        ensures
            r == self.erase_spec(),
            r.kind() == self.kind_spec(),
            r.payload() == self,
    {
        let ty = self.kind();
        ErasedEvent::new(ty, self)
    }
}

/// The events of `q` that `of_kind` picks carry well formed rows where
/// those of `q` do.
proof fn lemma_of_kind_wf<T>(q: Seq<ErasedEvent<WorldEvent<T>>>, n: int, ty: u64, want: bool)
    requires
        0 <= n <= q.len(),
        forall|i: int| 0 <= i < q.len() ==> (#[trigger] q[i]).payload().wf(),
    ensures
        forall|i: int|
            0 <= i < crate::event::of_kind(q, n, ty, want).len() ==> (#[trigger] crate::event::of_kind(
                q,
                n,
                ty,
                want,
            )[i]).payload().wf(),
    decreases n,
{
    if n > 0 {
        lemma_of_kind_wf(q, n - 1, ty, want);
        let prev = crate::event::of_kind(q, n - 1, ty, want);
        let cur = crate::event::of_kind(q, n, ty, want);
        assert forall|i: int| 0 <= i < cur.len() implies (#[trigger] cur[i]).payload().wf() by {
            if i < prev.len() {
                assert(cur[i] == prev[i]);
            } else {
                assert(cur[i] == q[n - 1]);
            }
        }
    }
}

/// Every queued event is a request to set a parent.
pub open spec fn only_parent_events<T>(q: Seq<ErasedEvent<WorldEvent<T>>>) -> bool {
    forall|i: int| 0 <= i < q.len() ==> (#[trigger] q[i]).payload() is SetParent
}

/// The number of times `c` occurs in `ids`.
pub open spec fn occurrences(ids: Seq<ComponentId>, c: ComponentId) -> nat
    decreases ids.len(),
{
    if ids.len() == 0 {
        0
    } else {
        occurrences(ids.drop_last(), c) + if ids.last() == c {
            1nat
        } else {
            0nat
        }
    }
}

/// `e`, `n` times.
pub open spec fn repeated(e: Entity, n: nat) -> Seq<Entity> {
    Seq::new(n, |_j: int| e)
}

/// A component id occurs once in the list of itself alone, and no other
/// does.
pub proof fn lemma_occurrences_one(id: ComponentId, c: ComponentId)
    ensures
        occurrences(seq![id], c) == (if id == c { 1nat } else { 0nat }),
{
    assert(seq![id].drop_last() =~= Seq::<ComponentId>::empty());
    assert(occurrences(Seq::<ComponentId>::empty(), c) == 0);
    assert(seq![id].last() == id);
}

/// In a list without repeats, an id occurs once where it is listed.
pub proof fn lemma_occurrences_distinct(ids: Seq<ComponentId>, c: ComponentId)
    requires
        ids.no_duplicates(),
    ensures
        occurrences(ids, c) == (if ids.contains(c) { 1nat } else { 0nat }),
    decreases ids.len(),
{
    if ids.len() > 0 {
        let d = ids.drop_last();
        assert(d.no_duplicates());
        lemma_occurrences_distinct(d, c);
        if ids.last() == c {
            if d.contains(c) {
                let j = choose|j: int| 0 <= j < d.len() && d[j] == c;
                assert(ids[j] == ids[ids.len() - 1]);
            }
        }
        if ids.contains(c) && ids.last() != c {
            let j = choose|j: int| 0 <= j < ids.len() && ids[j] == c;
            assert(d[j] == c);
        }
        if d.contains(c) {
            let j = choose|j: int| 0 <= j < d.len() && d[j] == c;
            assert(ids[j] == c);
        }
    }
}

/// The values of the component `c` among `cells`, in order, as taken from
/// `entity`.
pub open spec fn taken_for<T>(
    cells: Seq<(crate::ids::ColumnKey, crate::storage::table::ColumnCell<T>)>,
    c: ComponentId,
    entity: Entity,
) -> Seq<RemovedComponent<T>>
    decreases cells.len(),
{
    if cells.len() == 0 {
        Seq::empty()
    } else {
        let rest = taken_for(cells.drop_last(), c, entity);
        if cells.last().0.0 == c.0 {
            rest.push(RemovedComponent { entity, component: cells.last().1@ })
        } else {
            rest
        }
    }
}

/// What taking the first `n` cells of a row records for `c`: one record,
/// with the value under the column of `c`, where one of those cells has that
/// column; none otherwise.
proof fn lemma_taken_prefix<T>(row: Row<T>, c: ComponentId, e: Entity, n: int)
    requires
        row.wf(),
        0 <= n <= row.keys_seq().len(),
    ensures
        ({
            let cells = crate::storage::dense::pairs(row.keys_seq(), row.entries().value_seq());
            taken_for(cells.take(n), c, e) == if exists|j: int| 0 <= j < n && #[trigger] row.keys_seq()[j].0 == c.0 {
                seq![RemovedComponent { entity: e, component: row.value_of(ColumnKey(c.0)) }]
            } else {
                Seq::<RemovedComponent<T>>::empty()
            }
        }),
    decreases n,
{
    let cells = crate::storage::dense::pairs(row.keys_seq(), row.entries().value_seq());
    row.entries().lemma_wf();
    if n > 0 {
        lemma_taken_prefix(row, c, e, n - 1);
        assert(cells.take(n).drop_last() =~= cells.take(n - 1));
        assert(cells.take(n).last() == cells[n - 1]);
        let k = row.keys_seq()[n - 1];
        if k.0 == c.0 {
            row.entries().lemma_proper_distinct();
            assert(k == ColumnKey(c.0));
            assert(crate::storage::dense::records_at(row.entries().index_map(), row.keys_seq(), n - 1));
            if exists|j: int| 0 <= j < n - 1 && #[trigger] row.keys_seq()[j].0 == c.0 {
                let j = choose|j: int| 0 <= j < n - 1 && #[trigger] row.keys_seq()[j].0 == c.0;
                assert(row.keys_seq()[j].spec_key() != row.keys_seq()[n - 1].spec_key());
            }
        } else {
            if exists|j: int| 0 <= j < n && #[trigger] row.keys_seq()[j].0 == c.0 {
                let j = choose|j: int| 0 <= j < n && #[trigger] row.keys_seq()[j].0 == c.0;
                assert(j < n - 1);
            }
        }
    } else {
        assert(cells.take(0) =~= Seq::<(ColumnKey, crate::storage::table::ColumnCell<T>)>::empty());
    }
}

/// What taking the cells of a row records for `c`: one record, with the
/// value under the column of `c`, where the row has that column; none
/// otherwise.
proof fn lemma_taken_row<T>(row: Row<T>, c: ComponentId, e: Entity)
    requires
        row.wf(),
    ensures
        taken_for(crate::storage::dense::pairs(row.keys_seq(), row.entries().value_seq()), c, e)
            == if row.has(ColumnKey(c.0)) {
            seq![RemovedComponent { entity: e, component: row.value_of(ColumnKey(c.0)) }]
        } else {
            Seq::<RemovedComponent<T>>::empty()
        },
{
    let n = row.keys_seq().len() as int;
    lemma_taken_prefix(row, c, e, n);
    let cells = crate::storage::dense::pairs(row.keys_seq(), row.entries().value_seq());
    assert(cells.take(n) =~= cells);
    row.lemma_has_iff_contains(ColumnKey(c.0));
    if row.has(ColumnKey(c.0)) {
        let j = choose|j: int| 0 <= j < n && row.keys_seq()[j] == ColumnKey(c.0);
        assert(row.keys_seq()[j].0 == c.0);
    }
    if exists|j: int| 0 <= j < n && #[trigger] row.keys_seq()[j].0 == c.0 {
        let j = choose|j: int| 0 <= j < n && #[trigger] row.keys_seq()[j].0 == c.0;
        assert(row.keys_seq()[j] == ColumnKey(c.0));
    }
}

/// Entities, the archetypes that hold their components, a queue of
/// requests, and the outputs of the requests carried out.
pub struct World<T> {
    entities: Entities,
    archetypes: Archetypes<T>,
    events: Events<WorldEvent<T>>,
    spawned: EventOutputs<Entity>,
    despawned: EventOutputs<Vec<Entity>>,
    parent_updates: EventOutputs<ParentUpdate>,
    children_added: EventOutputs<Vec<ParentUpdate>>,
    children_removed: EventOutputs<Vec<ParentUpdate>>,
    components_added: EventOutputs<Entity>,
    components_removed: EventOutputs<Entity>,
    component_events: DenseMap<ComponentId, ComponentEvents<T>>,
    resources: Resources<T>,
    local_resources: LocalResources<T>,
}

impl<T> World<T> {
    pub closed spec fn res(&self) -> BaseResouces<T> {
        self.resources.0
    }

    pub closed spec fn local_res(&self) -> BaseResouces<T> {
        self.local_resources.0
    }

    pub closed spec fn ents(&self) -> Entities {
        self.entities
    }

    pub closed spec fn archs(&self) -> Archetypes<T> {
        self.archetypes
    }

    pub closed spec fn evs(&self) -> Events<WorldEvent<T>> {
        self.events
    }

    pub closed spec fn comp_events(&self) -> DenseMap<ComponentId, ComponentEvents<T>> {
        self.component_events
    }

    pub closed spec fn spawned_seq(&self) -> Seq<Entity> {
        self.spawned@
    }

    pub closed spec fn despawned_seq(&self) -> Seq<Vec<Entity>> {
        self.despawned@
    }

    pub closed spec fn parent_update_seq(&self) -> Seq<ParentUpdate> {
        self.parent_updates@
    }

    pub closed spec fn children_added_seq(&self) -> Seq<Vec<ParentUpdate>> {
        self.children_added@
    }

    pub closed spec fn children_removed_seq(&self) -> Seq<Vec<ParentUpdate>> {
        self.children_removed@
    }

    pub closed spec fn components_added_seq(&self) -> Seq<Entity> {
        self.components_added@
    }

    pub closed spec fn components_removed_seq(&self) -> Seq<Entity> {
        self.components_removed@
    }

    pub open spec fn wf(&self) -> bool {
        &&& self.ents().wf()
        &&& self.ents().linked()
        &&& self.archs().wf()
        &&& self.evs().wf()
        &&& self.comp_events().wf()
        &&& self.comp_events().is_proper()
        &&& self.res().wf()
        &&& self.local_res().wf()
        &&& forall|i: int|
            0 <= i < self.evs().queue().len() ==> (#[trigger] self.evs().queue()[i]).payload().wf()
    }

    /// A new entity can be numbered, and the root archetype, whose table has
    /// no columns, can take it.
    pub open spec fn can_spawn_spec(&self) -> bool {
        &&& self.ents().free_seq().len() == 0 ==> self.ents().slots() < u32::MAX
        &&& self.archs().archetype_map().has(self.archs().root())
        &&& self.archs().arch(self.archs().root()).tab().col_map().key_seq().len() == 0
    }

    /// `new` has the outputs of `self`, but for the one numbered `k` in the
    /// order spawned, despawned, parent updates, children added, children
    /// removed, components added, components removed (a `k` out of that
    /// range keeps them all).
    pub open spec fn kept_but(&self, new: &Self, k: int) -> bool {
        &&& k != 0 ==> new.spawned_seq() == self.spawned_seq()
        &&& k != 1 ==> new.despawned_seq() == self.despawned_seq()
        &&& k != 2 ==> new.parent_update_seq() == self.parent_update_seq()
        &&& k != 3 ==> new.children_added_seq() == self.children_added_seq()
        &&& k != 4 ==> new.children_removed_seq() == self.children_removed_seq()
        &&& k != 5 ==> new.components_added_seq() == self.components_added_seq()
        &&& k != 6 ==> new.components_removed_seq() == self.components_removed_seq()
    }

    /// The same resources, registered event kinds and registered components.
    pub open spec fn same_setup(&self, new: &Self) -> bool {
        &&& new.res() == self.res()
        &&& new.local_res() == self.local_res()
        &&& new.evs().meta_map() == self.evs().meta_map()
        &&& new.comp_events().key_seq() == self.comp_events().key_seq()
        &&& new.comp_events().index_map() == self.comp_events().index_map()
    }

    /// `s` is `t` with one more item, or `t` itself.
    pub open spec fn grown_or_same<A>(t: Seq<A>, s: Seq<A>) -> bool {
        s == t || (s.len() == t.len() + 1 && s.drop_last() == t)
    }

    /// The changes of parent recorded in `updates` are those of setting
    /// the parent of each of `children`, in order, to `parent`.
    pub open spec fn updates_for(
        updates: Seq<ParentUpdate>,
        children: Seq<Entity>,
        parent: Option<Entity>,
    ) -> bool {
        &&& updates.len() == children.len()
        &&& forall|i: int|
            0 <= i < updates.len() ==> (#[trigger] updates[i]).spec_entity() == children[i]
                && updates[i].spec_parent() == parent
    }

    /// The parent that `children[i]` has just before the `i`-th change of
    /// setting each of `children` in turn to `parent`: `parent` where the
    /// child came earlier in the list, else its parent here; none for an
    /// entity that is not alive.
    pub open spec fn parent_before(&self, children: Seq<Entity>, i: int, parent: Option<Entity>) -> Option<
        Entity,
    > {
        if !self.ents().is_alive(children[i]) {
            None::<Entity>
        } else if children.take(i).contains(children[i]) {
            parent
        } else {
            self.ents().parent_of(children[i])
        }
    }

    /// `row` is what the archetype of `x` holds for it: the columns of that
    /// archetype, each with the value of `x` there.
    pub open spec fn took_row(&self, x: Entity, row: Row<T>) -> bool {
        &&& self.archs().entity_map().has(x)
        &&& row.keys_seq() == self.archs().arch(self.archs().arch_of(x)).tab().col_map().key_seq()
        &&& forall|k: ColumnKey| #[trigger] row.has(k) ==> self.taken_value(x, k) == Some(row.value_of(k))
    }

    /// The value that the table of the archetype of `e` holds for `e` under
    /// `k`, where there is one.
    pub open spec fn taken_value(&self, e: Entity, k: ColumnKey) -> Option<T> {
        self.archs().arch(self.archs().arch_of(e)).tab().item_spec(k, e)
    }

    /// What taking the component `c` from `e` records: the value taken,
    /// where `e`'s archetype has the column of `c`, else nothing.
    pub open spec fn taken_record(&self, e: Entity, c: ComponentId) -> Seq<RemovedComponent<T>> {
        if self.archs().has_column(self.archs().arch_of(e), ColumnKey(c.0)) {
            seq![RemovedComponent { entity: e, component: self.taken_value(e, ColumnKey(c.0))->0 }]
        } else {
            Seq::empty()
        }
    }

    /// The outputs of the component `c` in `new` are those of `self` with
    /// `more` recorded among the values taken.
    pub open spec fn noted_taken(&self, new: &Self, c: ComponentId, more: Seq<RemovedComponent<T>>) -> bool {
        &&& new.comp_events().lookup(c).added_seq() == self.comp_events().lookup(c).added_seq()
        &&& new.comp_events().lookup(c).removed_seq() == self.comp_events().lookup(c).removed_seq()
            + more
    }

    /// A request to take one component takes effect: the entity is recorded
    /// in an archetype from which the component can be taken.
    pub open spec fn takes_component(&self, r: RemoveComponent) -> bool {
        &&& self.archs().removable(r.entity)
        &&& self.archs().entity_map().has(r.entity)
        &&& self.archs().fits_remove_component(self.archs().arch_of(r.entity), r.id)
    }

    /// A request to take several components takes effect: the entity is
    /// recorded in an archetype from which they can be taken.
    pub open spec fn takes_components(&self, r: RemoveComponents) -> bool {
        &&& self.archs().removable(r.entity)
        &&& self.archs().entity_map().has(r.entity)
        &&& self.archs().fits_remove_components(self.archs().arch_of(r.entity), r.components.key_seq())
    }

    /// The outputs of the component `c` in `new` are those of `self` with
    /// `entity` recorded `n` more times among the additions.
    pub open spec fn noted_exactly(&self, new: &Self, c: ComponentId, entity: Entity, n: nat) -> bool {
        &&& new.comp_events().lookup(c).removed_seq() == self.comp_events().lookup(c).removed_seq()
        &&& new.comp_events().lookup(c).added_seq() == self.comp_events().lookup(c).added_seq()
            + repeated(entity, n)
    }

    /// A request to add one component takes effect: it holds a value, and
    /// the entity is recorded in an archetype that can take the component.
    pub open spec fn adds_component(&self, a: AddComponent<T>) -> bool {
        &&& a.component is Some
        &&& self.archs().removable(a.entity)
        &&& self.archs().entity_map().has(a.entity)
        &&& self.archs().fits_add_component(self.archs().arch_of(a.entity), a.id)
    }

    /// A request to add several components takes effect: the entity is
    /// recorded in an archetype that can take them.
    pub open spec fn adds_components(&self, a: AddComponents<T>) -> bool {
        &&& self.archs().removable(a.entity)
        &&& self.archs().entity_map().has(a.entity)
        &&& self.archs().fits_add_components(self.archs().arch_of(a.entity), a.components)
    }

    /// The outputs of the component `c` in `new` are those of `self` with
    /// some more values recorded as taken, each from one of `from`.
    pub open spec fn noted_removed(&self, new: &Self, c: ComponentId, from: Seq<Entity>) -> bool {
        &&& new.comp_events().lookup(c).added_seq() == self.comp_events().lookup(c).added_seq()
        &&& exists|more: Seq<RemovedComponent<T>>|
            {
                &&& new.comp_events().lookup(c).removed_seq() == #[trigger] (self.comp_events().lookup(
                    c,
                ).removed_seq() + more)
                &&& forall|j: int| 0 <= j < more.len() ==> from.contains((#[trigger] more[j]).entity)
            }
    }

    /// What taking out each of `l` in turn records for the component `c`.
    pub open spec fn despawn_records(&self, l: Seq<Entity>, c: ComponentId) -> Seq<RemovedComponent<T>>
        decreases l.len(),
    {
        if l.len() == 0 {
            Seq::empty()
        } else {
            self.despawn_records(l.drop_last(), c) + self.taken_record(l.last(), c)
        }
    }

    /// The entities that a despawn recorded in `new`, where it recorded any.
    pub open spec fn despawn_list(&self, new: &Self) -> Seq<Entity> {
        if new.despawned_seq().len() > self.despawned_seq().len() {
            new.despawned_seq().last()@
        } else {
            Seq::empty()
        }
    }

    /// What carrying out `event` on `self` leaves in `new`.
    pub open spec fn carried_out(&self, new: &Self, event: WorldEvent<T>) -> bool {
        &&& self.same_setup(new)
        &&& match event {
            WorldEvent::Spawn(s) => if self.can_spawn_spec() {
                exists|e: Entity|
                    {
                        &&& !self.ents().is_alive(e)
                        &&& #[trigger] new.ents().is_alive(e)
                        &&& new.ents().parent_of(e) == s.parent
                        &&& new.spawned_seq() == self.spawned_seq().push(e)
                        &&& new.archs().entity_map().has(e)
                        &&& new.archs().removable(e)
                        &&& self.kept_but(new, 0)
                        &&& forall|x: Entity|
                            self.ents().is_alive(x) ==> #[trigger] new.ents().is_alive(x)
                                && new.ents().parent_of(x) == self.ents().parent_of(x)
                        &&& forall|c: ComponentId| #[trigger]
                            new.comp_events().has(c) ==> self.noted_exactly(
                                new,
                                c,
                                e,
                                if self.archs().fits_add_components(self.archs().root(), s.components)
                                    && s.components.has(ColumnKey(c.0)) {
                                    1nat
                                } else {
                                    0nat
                                },
                            )
                        &&& (forall|edge: EdgeId| #[trigger] self.archs().arch(self.archs().root()).edge_target(
                            edge,
                            EdgeType::Add,
                        ) is None) ==> {
                            let t = new.archs().arch_of(e);
                            &&& forall|k: ColumnKey| #[trigger] new.archs().has_column(t, k) <==> s.components.has(k)
                            &&& forall|edge: EdgeId| #[trigger] new.archs().arch(t).edge_target(edge, EdgeType::Remove) is Some
                                ==> new.archs().arch(t).edge_target(edge, EdgeType::Remove) == Some(self.archs().root())
                                && edge is Archetype
                            &&& t != self.archs().root() ==> {
                                &&& forall|edge: EdgeId| #[trigger] new.archs().arch(t).edge_target(edge, EdgeType::Add) is None
                                &&& new.archs().archetype_map().has(self.archs().root())
                                &&& new.archs().arch(self.archs().root()).tab().col_map().key_seq().len() == 0
                            }
                        }
                    }
            } else {
                &&& new.ents() == self.ents()
                &&& new.comp_events() == self.comp_events()
                &&& self.kept_but(new, 7)
            },
            WorldEvent::Despawn(d) => {
                &&& !new.ents().is_alive(d.entity)
                &&& forall|e: Entity| #[trigger] new.ents().is_alive(e) ==> self.ents().is_alive(e)
                &&& forall|x: Entity, c: Entity|
                    #![trigger new.ents().is_alive(x), self.ents().children_of(x).contains(c)]
                    self.ents().is_alive(x) && !new.ents().is_alive(x) && self.ents().children_of(
                        x,
                    ).contains(c) ==> !new.ents().is_alive(c)
                &&& Self::grown_or_same(self.despawned_seq(), new.despawned_seq())
                &&& !self.ents().is_alive(d.entity) ==> new.despawned_seq() == self.despawned_seq()
                    && new.comp_events() == self.comp_events()
                &&& self.ents().is_alive(d.entity) && self.archs().entity_map().has(d.entity)
                    && self.archs().removable(d.entity) ==> {
                    &&& new.despawned_seq().len() == self.despawned_seq().len() + 1
                    &&& new.despawned_seq().last()@[0] == d.entity
                }
                &&& new.despawned_seq().len() > self.despawned_seq().len() ==> {
                    let l = new.despawned_seq().last()@;
                    &&& l.len() > 0
                    &&& l.no_duplicates()
                    &&& forall|j: int|
                        0 <= j < l.len() ==> self.ents().is_alive(#[trigger] l[j]) && !new.ents().is_alive(l[j])
                }
                &&& self.kept_but(new, 1)
                &&& forall|c: ComponentId| #[trigger]
                    new.comp_events().has(c) ==> self.noted_removed(new, c, self.despawn_list(new))
                &&& forall|j: int|
                    0 <= j < self.despawn_list(new).len() ==> !new.archs().entity_map().has(
                        #[trigger] self.despawn_list(new)[j],
                    )
                &&& self.archs().all_held() ==> {
                    &&& forall|x: Entity|
                        self.ents().is_alive(x) && !new.ents().is_alive(x) && #[trigger] self.archs().entity_map().has(
                            x,
                        ) ==> self.despawn_list(new).contains(x)
                    &&& forall|c: ComponentId| #[trigger]
                        new.comp_events().has(c) ==> self.noted_taken(
                            new,
                            c,
                            self.despawn_records(self.despawn_list(new), c),
                        )
                }
            },
            WorldEvent::SetParent(p) => {
                let u = new.parent_update_seq().last();
                &&& forall|e: Entity| #[trigger] new.ents().is_alive(e) == self.ents().is_alive(e)
                &&& self.ents().is_alive(p.entity) ==> new.ents().parent_of(p.entity) == p.parent
                &&& new.parent_update_seq().len() == self.parent_update_seq().len() + 1
                &&& new.parent_update_seq().drop_last() == self.parent_update_seq()
                &&& u.spec_entity() == p.entity
                &&& u.spec_parent() == p.parent
                &&& u.spec_old_parent() == (if self.ents().is_alive(p.entity) {
                    self.ents().parent_of(p.entity)
                } else {
                    None::<Entity>
                })
                &&& self.kept_but(new, 2)
                &&& new.comp_events() == self.comp_events()
            },
            WorldEvent::AddChildren(a) => {
                &&& forall|e: Entity| #[trigger] new.ents().is_alive(e) == self.ents().is_alive(e)
                &&& new.children_added_seq().len() == self.children_added_seq().len() + 1
                &&& new.children_added_seq().drop_last() == self.children_added_seq()
                &&& Self::updates_for(new.children_added_seq().last()@, a.children@, Some(a.parent))
                &&& forall|i: int|
                    0 <= i < a.children@.len() ==> (#[trigger] new.children_added_seq().last()@[i]).spec_old_parent()
                        == self.parent_before(a.children@, i, Some(a.parent))
                &&& forall|e: Entity|
                    self.ents().is_alive(e) ==> #[trigger] new.ents().parent_of(e) == (if a.children@.contains(e) {
                        Some(a.parent)
                    } else {
                        self.ents().parent_of(e)
                    })
                &&& self.kept_but(new, 3)
                &&& new.comp_events() == self.comp_events()
            },
            WorldEvent::RemoveChildren(r) => {
                &&& forall|e: Entity| #[trigger] new.ents().is_alive(e) == self.ents().is_alive(e)
                &&& new.children_removed_seq().len() == self.children_removed_seq().len() + 1
                &&& new.children_removed_seq().drop_last() == self.children_removed_seq()
                &&& Self::updates_for(new.children_removed_seq().last()@, r.children@, None)
                &&& forall|i: int|
                    0 <= i < r.children@.len() ==> (#[trigger] new.children_removed_seq().last()@[i]).spec_old_parent()
                        == self.parent_before(r.children@, i, None)
                &&& forall|e: Entity|
                    self.ents().is_alive(e) ==> #[trigger] new.ents().parent_of(e) == (if r.children@.contains(e) {
                        None::<Entity>
                    } else {
                        self.ents().parent_of(e)
                    })
                &&& self.kept_but(new, 4)
                &&& new.comp_events() == self.comp_events()
            },
            WorldEvent::AddComponent(a) => {
                &&& new.ents() == self.ents()
                &&& self.kept_but(new, 7)
                &&& forall|c: ComponentId| #[trigger]
                    new.comp_events().has(c) ==> self.noted_exactly(
                        new,
                        c,
                        a.entity,
                        if self.adds_component(a) && c == a.id {
                            2nat
                        } else {
                            0nat
                        },
                    )
            },
            WorldEvent::AddComponents(a) => {
                &&& new.ents() == self.ents()
                &&& new.components_added_seq() == (if self.adds_components(a) {
                    self.components_added_seq().push(a.entity)
                } else {
                    self.components_added_seq()
                })
                &&& self.kept_but(new, 5)
                &&& forall|c: ComponentId| #[trigger]
                    new.comp_events().has(c) ==> self.noted_exactly(
                        new,
                        c,
                        a.entity,
                        if self.adds_components(a) && a.components.has(ColumnKey(c.0)) {
                            1nat
                        } else {
                            0nat
                        },
                    )
            },
            WorldEvent::RemoveComponent(r) => {
                &&& new.ents() == self.ents()
                &&& self.kept_but(new, 7)
                &&& forall|c: ComponentId| #[trigger]
                    new.comp_events().has(c) ==> self.noted_taken(
                        new,
                        c,
                        if self.takes_component(r) && c == r.id {
                            self.taken_record(r.entity, c)
                        } else {
                            Seq::empty()
                        },
                    )
            },
            WorldEvent::RemoveComponents(r) => {
                &&& new.ents() == self.ents()
                &&& new.components_removed_seq() == (if self.takes_components(r) {
                    self.components_removed_seq().push(r.entity)
                } else {
                    self.components_removed_seq()
                })
                &&& self.kept_but(new, 6)
                &&& forall|c: ComponentId| #[trigger]
                    new.comp_events().has(c) ==> self.noted_taken(
                        new,
                        c,
                        if self.takes_components(r) && r.components.key_seq().contains(c) {
                            self.taken_record(r.entity, c)
                        } else {
                            Seq::empty()
                        },
                    )
            },
        }
    }

    /// What `events` carry, in order.
    pub open spec fn payloads(events: Seq<ErasedEvent<WorldEvent<T>>>) -> Seq<WorldEvent<T>> {
        events.map_values(|e: ErasedEvent<WorldEvent<T>>| e.payload())
    }

    /// `new` is what carrying out `events`, in order, on `self` leaves.
    pub open spec fn ran(&self, events: Seq<WorldEvent<T>>, new: &Self) -> bool
        decreases events.len(),
    {
        if events.len() == 0 {
            *new == *self
        } else {
            exists|mid: Self|
                self.ran(events.drop_last(), &mid) && #[trigger] mid.carried_out(new, events.last())
        }
    }

    /// `new` is `self` with the queue emptied, all else the same.
    pub open spec fn drained_to(&self, new: &Self) -> bool {
        &&& new.ents() == self.ents()
        &&& new.archs() == self.archs()
        &&& new.comp_events() == self.comp_events()
        &&& new.evs().queue().len() == 0
        &&& self.same_setup(new)
        &&& self.kept_but(new, 7)
    }

    /// `new` is `self` with the queued requests of the kind `ty` taken out,
    /// the others left in order, all else the same.
    pub open spec fn drained_kind_to(&self, new: &Self, ty: u64) -> bool {
        &&& new.ents() == self.ents()
        &&& new.archs() == self.archs()
        &&& new.comp_events() == self.comp_events()
        &&& new.evs().queue() == of_kind(self.evs().queue(), self.evs().queue().len() as int, ty, false)
        &&& self.same_setup(new)
        &&& self.kept_but(new, 7)
    }

    /// `new` is what taking every queued request out of `self` and carrying
    /// each out, in order, leaves.
    pub open spec fn round(&self, new: &Self) -> bool {
        exists|start: Self|
            #![trigger self.drained_to(&start)]
            self.drained_to(&start) && start.ran(Self::payloads(self.evs().queue()), new)
    }

    /// A world with no entities, an empty root archetype, no queued events,
    /// and the kinds of its own events registered.
    pub fn new() -> (r: Self)
        ensures
            r.wf(),
            r.ents().slots() == 0,
            r.ents().free_seq() == Seq::<u32>::empty(),
            r.archs().entity_map().key_seq() == Seq::<Entity>::empty(),
            r.archs().archetype_map().key_seq() == seq![r.archs().root()],
            r.archs().arch(r.archs().root()).tab().col_map().key_seq() == Seq::<
                crate::ids::ColumnKey,
            >::empty(),
            r.archs().arch(r.archs().root()).component_set().key_seq() == Seq::<ComponentId>::empty(),
            forall|e: EdgeId, ty: EdgeType| #[trigger] r.archs().arch(r.archs().root()).edge_target(e, ty) is None,
            r.evs().queue() == Seq::<ErasedEvent<WorldEvent<T>>>::empty(),
            r.can_spawn_spec(),
            r.evs().registered(SPAWN),
            r.evs().registered(DESPAWN),
            r.evs().registered(SET_PARENT),
            r.evs().registered(ADD_CHILDREN),
            r.evs().registered(REMOVE_CHILDREN),
            r.evs().registered(ADD_COMPONENTS),
            r.evs().registered(REMOVE_COMPONENTS),
            r.spawned_seq() == Seq::<Entity>::empty(),
            r.despawned_seq() == Seq::<Vec<Entity>>::empty(),
            r.parent_update_seq() == Seq::<ParentUpdate>::empty(),
            r.children_added_seq() == Seq::<Vec<ParentUpdate>>::empty(),
            r.children_removed_seq() == Seq::<Vec<ParentUpdate>>::empty(),
            r.components_added_seq() == Seq::<Entity>::empty(),
            r.components_removed_seq() == Seq::<Entity>::empty(),
            r.comp_events().key_seq() == Seq::<ComponentId>::empty(),
    {
        let mut events: Events<WorldEvent<T>> = Events::new();
        let spawned = events.register(SPAWN, SPAWN_PRIORITY);
        let ghost e1 = events;
        let despawned = events.register(DESPAWN, DESPAWN_PRIORITY);
        let ghost e2 = events;
        let parent_updates = events.register(SET_PARENT, SET_PARENT_PRIORITY);
        let ghost e3 = events;
        let children_added = events.register(ADD_CHILDREN, ADD_CHILDREN_PRIORITY);
        let ghost e4 = events;
        let children_removed = events.register(REMOVE_CHILDREN, REMOVE_CHILDREN_PRIORITY);
        let ghost e5 = events;
        let components_added = events.register(ADD_COMPONENTS, SET_PARENT_PRIORITY);
        let ghost e6 = events;
        let components_removed = events.register(REMOVE_COMPONENTS, ADD_CHILDREN_PRIORITY);
        proof {
            assert(e2.meta_map().same_entry(&e1.meta_map(), SPAWN));
            assert(e3.meta_map().same_entry(&e2.meta_map(), SPAWN));
            assert(e3.meta_map().same_entry(&e2.meta_map(), DESPAWN));
            assert(e4.meta_map().same_entry(&e3.meta_map(), SPAWN));
            assert(e4.meta_map().same_entry(&e3.meta_map(), DESPAWN));
            assert(e4.meta_map().same_entry(&e3.meta_map(), SET_PARENT));
            assert(e5.meta_map().same_entry(&e4.meta_map(), SPAWN));
            assert(e5.meta_map().same_entry(&e4.meta_map(), DESPAWN));
            assert(e5.meta_map().same_entry(&e4.meta_map(), SET_PARENT));
            assert(e5.meta_map().same_entry(&e4.meta_map(), ADD_CHILDREN));
            assert(e6.meta_map().same_entry(&e5.meta_map(), SPAWN));
            assert(e6.meta_map().same_entry(&e5.meta_map(), DESPAWN));
            assert(e6.meta_map().same_entry(&e5.meta_map(), SET_PARENT));
            assert(e6.meta_map().same_entry(&e5.meta_map(), ADD_CHILDREN));
            assert(e6.meta_map().same_entry(&e5.meta_map(), REMOVE_CHILDREN));
            assert(events.meta_map().same_entry(&e6.meta_map(), SPAWN));
            assert(events.meta_map().same_entry(&e6.meta_map(), DESPAWN));
            assert(events.meta_map().same_entry(&e6.meta_map(), SET_PARENT));
            assert(events.meta_map().same_entry(&e6.meta_map(), ADD_CHILDREN));
            assert(events.meta_map().same_entry(&e6.meta_map(), REMOVE_CHILDREN));
            assert(events.meta_map().same_entry(&e6.meta_map(), ADD_COMPONENTS));
        }
        let r = World {
            entities: Entities::new(),
            archetypes: Archetypes::new(),
            events,
            spawned,
            despawned,
            parent_updates,
            children_added,
            children_removed,
            components_added,
            components_removed,
            component_events: DenseMap::new(),
            resources: Resources::new(),
            local_resources: LocalResources::new(),
        };
        r
    }

    pub fn entities(&self) -> (r: &Entities)
        ensures
            *r == self.ents(),
    {
        &self.entities
    }

    pub fn archetypes(&self) -> (r: &Archetypes<T>)
        ensures
            *r == self.archs(),
    {
        &self.archetypes
    }

    pub fn events(&self) -> (r: &Events<WorldEvent<T>>)
        ensures
            *r == self.evs(),
    {
        &self.events
    }

    /// Queues `event`.
    pub fn add_event(&mut self, event: WorldEvent<T>)
        requires
            old(self).wf(),
            event.wf(),
        ensures
            final(self).wf(),
            final(self).evs().queue() == old(self).evs().queue().push(event.erase_spec()),
            event.erase_spec().payload() == event,
            event.erase_spec().kind() == event.kind_spec(),
            final(self).evs().meta_map() == old(self).evs().meta_map(),
            final(self).ents() == old(self).ents(),
            final(self).archs() == old(self).archs(),
            final(self).comp_events() == old(self).comp_events(),
            old(self).kept_but(&*final(self), 7),
            final(self).res() == old(self).res(),
            final(self).local_res() == old(self).local_res(),
    {
        let erased = event.erase();
        self.events.add(erased);
        proof {
            assert forall|i: int| 0 <= i < self.evs().queue().len() implies (#[trigger] self.evs().queue()[i]).payload().wf() by {
                if i < old(self).evs().queue().len() {
                    assert(self.evs().queue()[i] == old(self).evs().queue()[i]);
                }
            }
        }
    }

    /// Keeps outputs for the component `id`: the entities it is added to,
    /// and the values taken from them.
    pub fn register(&mut self, id: ComponentId)
        requires
            old(self).wf(),
        ensures
            final(self).wf(),
            final(self).comp_events().has(id),
            final(self).ents() == old(self).ents(),
            final(self).archs() == old(self).archs(),
            final(self).evs() == old(self).evs(),
    {
        let replaced = self.component_events.insert(id, ComponentEvents::new());
    }

    /// The outputs kept for the component `id`, where it is registered.
    pub fn component_events(&self, id: &ComponentId) -> (r: Option<&ComponentEvents<T>>)
        requires
            self.wf(),
        ensures
            self.comp_events().has(*id) ==> r == Some(&self.comp_events().lookup(*id)),
            !self.comp_events().has(*id) ==> r is None,
    {
        self.component_events.get(id)
    }

    /// The entities spawned by spawn requests, in order.
    pub fn spawned(&self) -> (r: &[Entity])
        ensures
            r@ == self.spawned_seq(),
    {
        self.spawned.slice()
    }

    /// The entities despawned by each despawn request that despawned any.
    pub fn despawned(&self) -> (r: &[Vec<Entity>])
        ensures
            r@ == self.despawned_seq(),
    {
        self.despawned.slice()
    }

    /// The parent changes made by parent requests.
    pub fn parent_updates(&self) -> (r: &[ParentUpdate])
        ensures
            r@ == self.parent_update_seq(),
    {
        self.parent_updates.slice()
    }

    /// The parent changes made by each request to add children.
    pub fn children_added(&self) -> (r: &[Vec<ParentUpdate>])
        ensures
            r@ == self.children_added_seq(),
    {
        self.children_added.slice()
    }

    /// The parent changes made by each request to remove children.
    pub fn children_removed(&self) -> (r: &[Vec<ParentUpdate>])
        ensures
            r@ == self.children_removed_seq(),
    {
        self.children_removed.slice()
    }

    /// The entities that requests to add several components changed.
    pub fn components_added(&self) -> (r: &[Entity])
        ensures
            r@ == self.components_added_seq(),
    {
        self.components_added.slice()
    }

    /// The entities that requests to remove several components changed.
    pub fn components_removed(&self) -> (r: &[Entity])
        ensures
            r@ == self.components_removed_seq(),
    {
        self.components_removed.slice()
    }
}

impl<T> World<T> {
    /// Makes a new entity with the parent `parent`, recorded in the root
    /// archetype.
    pub fn spawn(&mut self, parent: Option<Entity>) -> (r: Entity)
        requires
            old(self).wf(),
            old(self).can_spawn_spec(),
        ensures
            final(self).wf(),
            final(self).ents().is_alive(r),
            !old(self).ents().is_alive(r),
            old(self).ents().free_seq().len() == 0 ==> r == (Entity {
                id: old(self).ents().slots() as u32,
                gen: 0,
            }),
            final(self).ents().parent_of(r) == parent,
            final(self).ents().children_of(r) == Seq::<Entity>::empty(),
            match parent {
                Some(p) => old(self).ents().is_alive(p) ==> final(self).ents().children_of(p)
                    == old(self).ents().children_of(p).push(r),
                None => true,
            },
            old(self).ents().free_seq().len() == 0 ==> final(self).ents().slots() == old(self).ents().slots() + 1,
            old(self).ents().free_seq().len() > 0 ==> {
                &&& final(self).ents().slots() == old(self).ents().slots()
                &&& final(self).ents().free_seq() == old(self).ents().free_seq().drop_last()
            },
            final(self).archs().archetype_map().has(final(self).archs().root()),
            final(self).archs().arch(final(self).archs().root()).tab().col_map().key_seq().len() == 0,
            final(self).archs().entity_map().has(r),
            final(self).archs().arch_of(r) == old(self).archs().root(),
            final(self).archs().removable(r),
            old(self).archs().others_kept(&final(self).archs(), old(self).archs().root()),
            crate::archetype::same_but_table(
                old(self).archs().arch(old(self).archs().root()),
                final(self).archs().arch(old(self).archs().root()),
            ),
            final(self).archs().arch(old(self).archs().root()).tab().col_map().key_seq() == old(
                self,
            ).archs().arch(old(self).archs().root()).tab().col_map().key_seq(),
            final(self).archs().arch(old(self).archs().root()).tab().col_map().index_map() == old(
                self,
            ).archs().arch(old(self).archs().root()).tab().col_map().index_map(),
            final(self).archs().root() == old(self).archs().root(),
            final(self).evs() == old(self).evs(),
            final(self).comp_events() == old(self).comp_events(),
            old(self).kept_but(&*final(self), 7),
            final(self).res() == old(self).res(),
            final(self).local_res() == old(self).local_res(),
            forall|e: Entity| #[trigger]
                old(self).ents().is_alive(e) ==> final(self).ents().is_alive(e)
                    && final(self).ents().parent_of(e) == old(self).ents().parent_of(e),
    {
        let entity = self.entities.spawn(parent.as_ref());
        self.archetypes.add_entity(&entity);
        proof {
            let r = choose|r: Option<ArchetypeId>|
                old(self).archs().entity_map().inserted(&self.archs().entity_map(), entity, old(self).archs().root(), r);
            old(self).archs().entity_map().lemma_wf();
            if old(self).archs().entity_map().has(entity) {
                let m = old(self).archs().entity_map();
                let k = m.slot(entity);
                assert(m.key_seq()[k].spec_key() == entity.spec_key());
                Entity::lemma_key_injective(m.key_seq()[k], entity);
                assert(m.key_seq().update(k, entity) =~= m.key_seq());
                old(self).archs().entity_map().lemma_update_lookup(
                    &self.archs().entity_map(),
                    entity,
                    old(self).archs().root(),
                );
            } else {
                old(self).archs().entity_map().lemma_insert_lookup(
                    &self.archs().entity_map(),
                    entity,
                    old(self).archs().root(),
                );
            }
        }
        entity
    }

    /// Despawns `entity` and its descendants, taking each out of its
    /// archetype; each that an archetype held comes back with its values.
    pub fn despawn(&mut self, entity: &Entity) -> (r: DenseMap<Entity, Row<T>>)
        requires
            old(self).wf(),
        ensures
            final(self).wf(),
            r.wf(),
            r.is_proper(),
            forall|i: int| 0 <= i < r.value_seq().len() ==> (#[trigger] r.value_seq()[i]).wf(),
            forall|i: int|
                0 <= i < r.key_seq().len() ==> old(self).ents().is_alive(#[trigger] r.key_seq()[i])
                    && !final(self).ents().is_alive(r.key_seq()[i]),
            !old(self).ents().is_alive(*entity) ==> r.key_seq() == Seq::<Entity>::empty(),
            old(self).ents().is_alive(*entity) && old(self).archs().entity_map().has(*entity)
                && old(self).archs().removable(*entity) ==> r.key_seq().len() > 0 && r.key_seq()[0]
                == *entity,
            forall|e: Entity| #[trigger] final(self).ents().is_alive(e) ==> old(self).ents().is_alive(e),
            !final(self).ents().is_alive(*entity),
            forall|x: Entity, c: Entity|
                #![trigger final(self).ents().is_alive(x), old(self).ents().children_of(x).contains(c)]
                old(self).ents().is_alive(x) && !final(self).ents().is_alive(x) && old(
                    self,
                ).ents().children_of(x).contains(c) ==> !final(self).ents().is_alive(c),
            forall|i: int|
                0 <= i < r.key_seq().len() ==> !final(self).archs().entity_map().has(#[trigger] r.key_seq()[i]),
            old(self).archs().all_held() ==> forall|x: Entity|
                old(self).ents().is_alive(x) && !final(self).ents().is_alive(x) && #[trigger] old(
                    self,
                ).archs().entity_map().has(x) ==> r.has(x),
            old(self).archs().all_held() ==> forall|i: int|
                0 <= i < r.key_seq().len() ==> old(self).took_row(r.key_seq()[i], #[trigger] r.value_seq()[i]),
            final(self).evs() == old(self).evs(),
            final(self).comp_events() == old(self).comp_events(),
            old(self).kept_but(&*final(self), 7),
            final(self).res() == old(self).res(),
            final(self).local_res() == old(self).local_res(),
    {
        let ghost a0 = old(self).archs();
        let list = self.entities.despawn(entity);
        let ghost ents1 = self.ents();
        proof {
            assert forall|x: Entity, c: Entity|
                #![trigger ents1.is_alive(x), old(self).ents().children_of(x).contains(c)]
                old(self).ents().is_alive(x) && !ents1.is_alive(x) && old(
                    self,
                ).ents().children_of(x).contains(c) implies !ents1.is_alive(c) by {
                assert(list@.contains(x));
                if old(self).ents().is_alive(c) {
                    assert(list@.contains(c));
                    let k = choose|k: int| 0 <= k < list@.len() && list@[k] == c;
                    assert(!ents1.is_alive(list@[k]));
                }
            }
            if old(self).ents().is_alive(*entity) {
                assert(!ents1.is_alive(list@[0]));
            }
        }
        let mut despawned: DenseMap<Entity, Row<T>> = DenseMap::new();
        let mut i: usize = 0;
        while i < list.len()
            invariant
                old(self).kept_but(&*self, 7),
                self.res() == old(self).res(),
                self.local_res() == old(self).local_res(),
                i <= list@.len(),
                list@.no_duplicates(),
                self.wf(),
                despawned.wf(),
                despawned.is_proper(),
                forall|k: int| 0 <= k < despawned.value_seq().len() ==> (#[trigger] despawned.value_seq()[k]).wf(),
                self.evs() == old(self).evs(),
                self.comp_events() == old(self).comp_events(),
                self.ents() == ents1,
                forall|k: int|
                    0 <= k < despawned.key_seq().len() ==> exists|j: int|
                        0 <= j < i && #[trigger] despawned.key_seq()[k] == list@[j],
                forall|j: int|
                    0 <= j < list@.len() ==> old(self).ents().is_alive(#[trigger] list@[j])
                        && !self.ents().is_alive(list@[j]),
                forall|e: Entity| #[trigger] self.ents().is_alive(e) ==> old(self).ents().is_alive(e),
                !old(self).ents().is_alive(*entity) ==> list@.len() == 0,
                old(self).ents().is_alive(*entity) ==> list@[0] == *entity,
                i == 0 ==> self.archs() == old(self).archs() && despawned.key_seq().len() == 0,
                i > 0 && old(self).ents().is_alive(*entity) && old(self).archs().entity_map().has(*entity)
                    && old(self).archs().removable(*entity) ==> despawned.key_seq().len() > 0
                    && despawned.key_seq()[0] == *entity,
                a0 == old(self).archs(),
                forall|x: Entity| #[trigger] self.archs().entity_map().has(x) ==> a0.entity_map().has(x),
                forall|k: int|
                    0 <= k < despawned.key_seq().len() ==> !self.archs().entity_map().has(
                        #[trigger] despawned.key_seq()[k],
                    ),
                a0.all_held() ==> forall|j: int|
                    #![trigger list@[j]]
                    i <= j < list@.len() && a0.entity_map().has(list@[j]) ==> a0.kept_row(&self.archs(), list@[j]),
                a0.all_held() ==> forall|j: int|
                    #![trigger list@[j]]
                    0 <= j < i && a0.entity_map().has(list@[j]) ==> despawned.has(list@[j]),
                a0.all_held() ==> forall|k: int|
                    0 <= k < despawned.key_seq().len() ==> old(self).took_row(
                        despawned.key_seq()[k],
                        #[trigger] despawned.value_seq()[k],
                    ),
            decreases list@.len() - i,
        {
            let e = list[i];
            let ghost cur = self.archs();
            let ghost d_before = despawned;
            if self.archetypes.can_remove(&e) {
                let ghost before = despawned;
                match self.archetypes.remove_entity(&e) {
                    Some((_, set)) => {
                        proof {
                            if despawned.has(e) {
                                let k = despawned.slot(e);
                                assert(despawned.key_seq()[k].spec_key() == e.spec_key());
                                Entity::lemma_key_injective(despawned.key_seq()[k], e);
                                let j = choose|j: int| 0 <= j < i && #[trigger] despawned.key_seq()[k] == list@[j];
                                assert(list@[j] == list@[i as int]);
                            }
                        }
                        let ghost set0 = set;
                        despawned.insert(e, set);
                        proof {
                            assert forall|x: Entity| #[trigger] self.archs().entity_map().has(x) implies a0.entity_map().has(x) by {
                                if x != e {
                                    assert(self.archs().entity_map().same_entry(&cur.entity_map(), x));
                                }
                            }
                            assert forall|k: int|
                                0 <= k < despawned.key_seq().len() implies !self.archs().entity_map().has(
                                #[trigger] despawned.key_seq()[k],
                            ) by {
                                let x = despawned.key_seq()[k];
                                if x != e {
                                    assert(self.archs().entity_map().same_entry(&cur.entity_map(), x));
                                    if k < d_before.key_seq().len() {
                                        assert(d_before.key_seq()[k] == x);
                                    } else {
                                        assert(x == e);
                                    }
                                }
                            }
                            before.lemma_wf();
                            assert forall|k: int| 0 <= k < despawned.value_seq().len() implies (#[trigger] despawned.value_seq()[k]).wf() by {
                                if k < before.value_seq().len() {
                                    assert(despawned.value_seq()[k] == before.value_seq()[k]);
                                } else {
                                    assert(despawned.value_seq()[k] == set0);
                                }
                            }
                            assert forall|k: int|
                                0 <= k < despawned.key_seq().len() implies exists|j: int|
                                0 <= j < i + 1 && #[trigger] despawned.key_seq()[k] == list@[j] by {
                                if k < before.key_seq().len() {
                                    let j = choose|j: int| 0 <= j < i && #[trigger] before.key_seq()[k] == list@[j];
                                    assert(despawned.key_seq()[k] == list@[j]);
                                } else {
                                    assert(despawned.key_seq()[k] == list@[i as int]);
                                }
                            }
                            if a0.all_held() {
                                assert(a0.entity_map().has(e));
                                assert(a0.kept_row(&cur, list@[i as int]));
                                assert(cur.held(e));
                                assert forall|j: int|
                                    #![trigger list@[j]]
                                    i + 1 <= j < list@.len() && a0.entity_map().has(list@[j]) implies a0.kept_row(
                                    &self.archs(),
                                    list@[j],
                                ) by {
                                    let x = list@[j];
                                    assert(a0.kept_row(&cur, x));
                                    assert(x != e);
                                    if x.spec_key() == e.spec_key() {
                                        Entity::lemma_key_injective(x, e);
                                    }
                                    assert(cur.kept_row(&self.archs(), x));
                                    a0.lemma_kept_row_chain(&cur, &self.archs(), x);
                                }
                            }
                        }
                    },
                    None => {
                        proof {
                            assert forall|x: Entity| #[trigger] self.archs().entity_map().has(x) implies a0.entity_map().has(x) by {
                                assert(cur.entity_map().has(x));
                            }
                            if a0.all_held() {
                                assert forall|j: int|
                                    #![trigger list@[j]]
                                    i + 1 <= j < list@.len() && a0.entity_map().has(list@[j]) implies a0.kept_row(
                                    &self.archs(),
                                    list@[j],
                                ) by {
                                    let x = list@[j];
                                    assert(a0.kept_row(&cur, x));
                                    assert(self.archs().entity_map().lookup(x) == cur.entity_map().lookup(x));
                                }
                                if a0.entity_map().has(e) {
                                    assert(a0.kept_row(&cur, list@[i as int]));
                                    assert(false);
                                }
                            }
                        }
                    },
                }
            } else {
                proof {
                    if a0.all_held() && a0.entity_map().has(e) {
                        assert(a0.kept_row(&cur, list@[i as int]));
                        assert(cur.held(e));
                        assert(false);
                    }
                }
            }
            i = i + 1;
        }
        proof {
            assert forall|k: int|
                0 <= k < despawned.key_seq().len() implies old(self).ents().is_alive(#[trigger] despawned.key_seq()[k])
                && !self.ents().is_alive(despawned.key_seq()[k]) by {
                let j = choose|j: int| 0 <= j < i && #[trigger] despawned.key_seq()[k] == list@[j];
                assert(old(self).ents().is_alive(list@[j]));
            }
            if !old(self).ents().is_alive(*entity) {
                if despawned.key_seq().len() > 0 {
                    let j = choose|j: int| 0 <= j < i && #[trigger] despawned.key_seq()[0] == list@[j];
                }
                assert(despawned.key_seq() =~= Seq::<Entity>::empty());
            }
        }
        despawned
    }

    /// Sets the parent of `entity`, handing back its parent before.
    pub fn set_parent(&mut self, entity: &Entity, parent: Option<&Entity>) -> (r: Option<Entity>)
        requires
            old(self).wf(),
        ensures
            final(self).wf(),
            !old(self).ents().is_alive(*entity) ==> r is None && final(self).ents() == old(self).ents(),
            old(self).ents().is_alive(*entity) ==> r == old(self).ents().parent_of(*entity)
                && final(self).ents().parent_of(*entity) == match parent {
                Some(p) => Some(*p),
                None => None::<Entity>,
            },
            old(self).ents().is_alive(*entity) ==> {
                &&& forall|e: Entity|
                    e.id != entity.id && (e.id as int) < old(self).ents().slots() ==> #[trigger] final(
                        self).ents().parent_of(e) == old(self).ents().parent_of(e)
                &&& match old(self).ents().parent_of(*entity) {
                    Some(q) => (q.id as int) < old(self).ents().slots() && !(parent matches Some(p)
                        && p.id == q.id) ==> !final(self).ents().children_of(q).contains(*entity),
                    None => true,
                }
                &&& match parent {
                    Some(p) => old(self).ents().is_alive(*p) && p.id != entity.id ==> {
                        &&& final(self).ents().children_of(*p).contains(*entity)
                        &&& final(self).ents().children_of(*p).last() == *entity
                    },
                    None => true,
                }
            },
            final(self).ents().slots() == old(self).ents().slots(),
            forall|e: Entity| #[trigger] final(self).ents().is_alive(e) == old(self).ents().is_alive(e),
            final(self).archs() == old(self).archs(),
            final(self).evs() == old(self).evs(),
            final(self).comp_events() == old(self).comp_events(),
            old(self).kept_but(&*final(self), 7),
            final(self).res() == old(self).res(),
            final(self).local_res() == old(self).local_res(),
    {
        self.entities.set_parent(entity, parent)
    }

    /// The query of the archetypes: see `Archetypes::query`.
    pub fn query(&self, components: &[ComponentId], exclude: &[ComponentId]) -> (r: Vec<ArchetypeId>)
        requires
            self.wf(),
            self.archs().listed_total(components@, components@.len() as int) <= usize::MAX,
        ensures
            forall|a: ArchetypeId| #[trigger] r@.contains(a) <==> self.archs().matches_query(
                a,
                components@,
                exclude@,
            ),
    {
        self.archetypes.query(components, exclude)
    }

    /// The archetype recorded for `entity` records the component `id`.
    pub fn has_component(&self, entity: &Entity, id: &ComponentId) -> (r: bool)
        requires
            self.wf(),
            self.archs().entity_map().has(*entity) ==> self.archs().archetype_map().has(
                self.archs().arch_of(*entity),
            ),
        ensures
            r == (self.archs().entity_map().has(*entity) && self.archs().arch(
                self.archs().arch_of(*entity),
            ).component_set().has(*id)),
    {
        self.archetypes.has_component(entity, id)
    }

    /// The archetype recorded for `entity` records each of `components`.
    pub fn has_components(&self, entity: &Entity, components: &[ComponentId]) -> (r: bool)
        requires
            self.wf(),
            self.archs().entity_map().has(*entity) ==> self.archs().archetype_map().has(
                self.archs().arch_of(*entity),
            ),
        ensures
            r == (self.archs().entity_map().has(*entity) && forall|i: int|
                0 <= i < components@.len() ==> #[trigger] self.archs().arch(
                    self.archs().arch_of(*entity),
                ).component_set().has(components@[i])),
    {
        let mut ids: DenseSet<ComponentId> = DenseSet::new();
        let mut i: usize = 0;
        while i < components.len()
            invariant
                i <= components@.len(),
                ids.key_seq() == components@.subrange(0, i as int),
            decreases components@.len() - i,
        {
            ids.insert(components[i]);
            i = i + 1;
        }
        proof {
            assert(components@.subrange(0, components@.len() as int) == components@);
        }
        self.archetypes.has_components(entity, ids)
    }

    /// Adds the component `id` with the value `component` to `entity`: see
    /// `Archetypes::add_component`.
    pub fn add_component(&mut self, entity: &Entity, id: &ComponentId, component: T) -> (r: Option<ArchetypeMove<T>>)
        requires
            old(self).wf(),
            old(self).archs().removable(*entity),
            old(self).archs().entity_map().has(*entity) ==> old(self).archs().fits_add_component(
                old(self).archs().arch_of(*entity),
                *id,
            ),
        ensures
            final(self).wf(),
            old(self).archs().entity_map().has(*entity) <==> r is Some,
            r is Some ==> old(self).archs().moved(
                &final(self).archs(),
                *entity,
                crate::archetype::EdgeId::Component(*id),
                crate::archetype::EdgeType::Add,
                r->0,
            ),
            final(self).ents() == old(self).ents(),
            final(self).evs() == old(self).evs(),
            final(self).comp_events() == old(self).comp_events(),
            old(self).kept_but(&*final(self), 7),
            final(self).res() == old(self).res(),
            final(self).local_res() == old(self).local_res(),
    {
        self.archetypes.add_component(entity, id, component)
    }

    /// Adds the components of `components` to `entity`: see
    /// `Archetypes::add_components`.
    pub fn add_components(&mut self, entity: &Entity, components: Row<T>) -> (r: Option<ArchetypeMove<T>>)
        requires
            old(self).wf(),
            components.wf(),
            old(self).archs().removable(*entity),
            old(self).archs().entity_map().has(*entity) ==> old(self).archs().fits_add_components(
                old(self).archs().arch_of(*entity),
                components,
            ),
        ensures
            final(self).wf(),
            old(self).archs().entity_map().has(*entity) <==> r is Some,
            r is Some ==> final(self).archs().entity_map().has(*entity) && final(self).archs().arch_of(
                *entity,
            ) == r->0.target() && final(self).archs().removable(*entity),
            r is Some ==> {
                &&& r->0.added_set().key_seq().no_duplicates()
                &&& forall|k: ColumnKey|
                    #[trigger] components.has(k) <==> r->0.added_set().key_seq().contains(ComponentId(k.0))
            },
            r is Some ==> r->0.source() == old(self).archs().arch_of(*entity),
            r is Some && r->0.target() != r->0.source() ==> final(self).archs().archetype_map().has(
                r->0.source(),
            ) && final(self).archs().arch(r->0.source()).tab().col_map().key_seq() == old(
                self,
            ).archs().arch(r->0.source()).tab().col_map().key_seq(),
            r is Some && (forall|e: EdgeId| #[trigger] old(self).archs().arch(
                old(self).archs().arch_of(*entity),
            ).edge_target(e, EdgeType::Add) is None) ==> {
                let t = r->0.target();
                &&& forall|k: ColumnKey| #[trigger] final(self).archs().has_column(t, k) <==> (old(
                    self,
                ).archs().has_column(r->0.source(), k) || components.has(k))
                &&& forall|e: EdgeId| #[trigger] final(self).archs().arch(t).edge_target(e, EdgeType::Remove) is Some
                    ==> final(self).archs().arch(t).edge_target(e, EdgeType::Remove) == Some(r->0.source())
                &&& t != r->0.source() ==> forall|e: EdgeId| #[trigger] final(self).archs().arch(t).edge_target(
                    e,
                    EdgeType::Add,
                ) is None
                &&& (forall|k: ColumnKey| !#[trigger] old(self).archs().has_column(r->0.source(), k)) ==> forall|
                    e: EdgeId,
                | #[trigger] final(self).archs().arch(t).edge_target(e, EdgeType::Remove) is Some ==> e is Archetype
            },
            final(self).ents() == old(self).ents(),
            final(self).evs() == old(self).evs(),
            final(self).comp_events() == old(self).comp_events(),
            old(self).kept_but(&*final(self), 7),
            final(self).res() == old(self).res(),
            final(self).local_res() == old(self).local_res(),
    {
        let r = self.archetypes.add_components(entity, components);
        proof {
            if r is Some && (forall|e: EdgeId| #[trigger] old(self).archs().arch(
                old(self).archs().arch_of(*entity),
            ).edge_target(e, EdgeType::Add) is None) {
                let m = r->0;
                let t = m.target();
                let (o, e) = choose|o: Seq<ComponentId>, e: EdgeId| {
                    &&& crate::archetype::increasing(o)
                    &&& forall|c: ComponentId|
                        #[trigger] o.contains(c) <==> components.has(ColumnKey(c.0)) && old(self).archs().has_column(
                            m.source(),
                            ColumnKey(c.0),
                        )
                    &&& crate::archetype::edge_for(o, e)
                    &&& self.archs().arch(m.source()).edge_target(e, EdgeType::Add) == Some(m.target())
                    &&& old(self).archs().next_of(m.source(), e, EdgeType::Add) is Some ==> m.target() == old(
                        self,
                    ).archs().next_of(m.source(), e, EdgeType::Add)->0
                    &&& old(self).archs().next_of(m.source(), e, EdgeType::Add) is None ==> forall|k: ColumnKey|
                        #[trigger] self.archs().arch(m.target()).tab().col_map().key_seq().contains(k) <==> (
                        old(self).archs().has_column(m.source(), k) || components.has(k))
                    &&& old(self).archs().next_of(m.source(), e, EdgeType::Add) is None ==> forall|e2: EdgeId|
                        #[trigger] self.archs().arch(m.target()).edge_target(e2, EdgeType::Remove) == (if e2
                            == e {
                            Some(m.source())
                        } else {
                            None
                        })
                    &&& old(self).archs().next_of(m.source(), e, EdgeType::Add) is None && m.target() != m.source()
                        ==> forall|e2: EdgeId|
                        #[trigger] self.archs().arch(m.target()).edge_target(e2, EdgeType::Add) is None
                };
                assert(old(self).archs().arch(m.source()).edge_target(e, EdgeType::Add) is None);
                assert(old(self).archs().next_of(m.source(), e, EdgeType::Add) is None);
                assert forall|k: ColumnKey| #[trigger] self.archs().has_column(t, k) <==> (old(
                    self,
                ).archs().has_column(m.source(), k) || components.has(k)) by {
                    self.archs().lemma_column_listed(t, k);
                }
                if forall|k: ColumnKey| !#[trigger] old(self).archs().has_column(m.source(), k) {
                    if o.len() > 0 {
                        assert(o.contains(o[0]));
                        assert(old(self).archs().has_column(m.source(), ColumnKey(o[0].0)));
                    }
                    assert forall|e2: EdgeId| #[trigger] self.archs().arch(t).edge_target(e2, EdgeType::Remove) is Some
                        implies e2 is Archetype by {
                        assert(self.archs().arch(t).edge_target(e2, EdgeType::Remove) == (if e2 == e {
                            Some(m.source())
                        } else {
                            None
                        }));
                    }
                }
                assert forall|e2: EdgeId| #[trigger] self.archs().arch(t).edge_target(e2, EdgeType::Remove) is Some
                    implies self.archs().arch(t).edge_target(e2, EdgeType::Remove) == Some(m.source()) by {
                    assert(self.archs().arch(t).edge_target(e2, EdgeType::Remove) == (if e2 == e {
                        Some(m.source())
                    } else {
                        None
                    }));
                }
            }
        }
        r
    }

    /// Takes the component `id` from `entity`: see
    /// `Archetypes::remove_component`.
    pub fn remove_component(&mut self, entity: &Entity, id: &ComponentId) -> (r: Option<ArchetypeMove<T>>)
        requires
            old(self).wf(),
            old(self).archs().removable(*entity),
            old(self).archs().entity_map().has(*entity) ==> old(self).archs().fits_remove_component(
                old(self).archs().arch_of(*entity),
                *id,
            ),
        ensures
            final(self).wf(),
            old(self).archs().entity_map().has(*entity) <==> r is Some,
            r is Some ==> old(self).archs().moved(
                &final(self).archs(),
                *entity,
                crate::archetype::EdgeId::Component(*id),
                crate::archetype::EdgeType::Remove,
                r->0,
            ),
            r is Some ==> r->0.removed_row().wf(),
            r is Some ==> forall|k: ColumnKey|
                #[trigger] r->0.removed_row().has(k) <==> (old(self).archs().has_column(
                    old(self).archs().arch_of(*entity),
                    k,
                ) && k == ColumnKey(id.0)),
            r is Some ==> forall|k: ColumnKey|
                #[trigger] r->0.removed_row().has(k) ==> old(self).taken_value(*entity, k) == Some(
                    r->0.removed_row().value_of(k),
                ),
            final(self).ents() == old(self).ents(),
            final(self).evs() == old(self).evs(),
            final(self).comp_events() == old(self).comp_events(),
            old(self).kept_but(&*final(self), 7),
            final(self).res() == old(self).res(),
            final(self).local_res() == old(self).local_res(),
    {
        let r = self.archetypes.remove_component(entity, id);
        proof {
            if r is Some {
                let m = r->0;
                assert forall|k: ColumnKey| #[trigger] m.removed_row().has(k) <==> (old(self).archs().has_column(
                    old(self).archs().arch_of(*entity),
                    k,
                ) && k == ColumnKey(id.0)) by {
                    m.removed_row().lemma_has_iff_contains(k);
                    if old(self).archs().has_column(old(self).archs().arch_of(*entity), ColumnKey(id.0)) {
                        assert(m.removed_row().keys_seq()[0] == ColumnKey(id.0));
                    }
                }
            }
        }
        r
    }

    /// Takes the components `components` from `entity`: see
    /// `Archetypes::remove_components`.
    pub fn remove_components(&mut self, entity: &Entity, components: DenseSet<ComponentId>) -> (r: Option<ArchetypeMove<T>>)
        requires
            old(self).wf(),
            old(self).archs().removable(*entity),
            old(self).archs().entity_map().has(*entity) ==> old(self).archs().fits_remove_components(
                old(self).archs().arch_of(*entity),
                components.key_seq(),
            ),
        ensures
            final(self).wf(),
            old(self).archs().entity_map().has(*entity) <==> r is Some,
            r is Some ==> final(self).archs().entity_map().has(*entity) && final(self).archs().arch_of(
                *entity,
            ) == r->0.target() && final(self).archs().removable(*entity),
            r is Some ==> r->0.removed_row().wf(),
            r is Some ==> forall|k: ColumnKey|
                #[trigger] r->0.removed_row().has(k) <==> (old(self).archs().has_column(
                    old(self).archs().arch_of(*entity),
                    k,
                ) && components.key_seq().contains(ComponentId(k.0))),
            r is Some ==> forall|k: ColumnKey|
                #[trigger] r->0.removed_row().has(k) ==> old(self).taken_value(*entity, k) == Some(
                    r->0.removed_row().value_of(k),
                ),
            final(self).ents() == old(self).ents(),
            final(self).evs() == old(self).evs(),
            final(self).comp_events() == old(self).comp_events(),
            old(self).kept_but(&*final(self), 7),
            final(self).res() == old(self).res(),
            final(self).local_res() == old(self).local_res(),
    {
        self.archetypes.remove_components(entity, components)
    }
}

impl<T> World<T> {
    /// Records, for each registered component of `ids`, that it was added
    /// to `entity`.
    fn note_added(&mut self, entity: &Entity, ids: &[ComponentId])
        requires
            old(self).wf(),
        ensures
            final(self).wf(),
            final(self).ents() == old(self).ents(),
            final(self).archs() == old(self).archs(),
            final(self).evs() == old(self).evs(),
            final(self).comp_events().key_seq() == old(self).comp_events().key_seq(),
            final(self).comp_events().index_map() == old(self).comp_events().index_map(),
            old(self).kept_but(&*final(self), 7),
            final(self).res() == old(self).res(),
            final(self).local_res() == old(self).local_res(),
            forall|c: ComponentId| #[trigger]
                final(self).comp_events().has(c) ==> {
                    &&& final(self).comp_events().lookup(c).added_seq() == old(
                        self,
                    ).comp_events().lookup(c).added_seq() + repeated(*entity, occurrences(ids@, c))
                    &&& final(self).comp_events().lookup(c).removed_seq() == old(
                        self,
                    ).comp_events().lookup(c).removed_seq()
                },
    {
        let mut i: usize = 0;
        while i < ids.len()
            invariant
                forall|c: ComponentId| #[trigger]
                    self.comp_events().has(c) ==> {
                        &&& self.comp_events().lookup(c).added_seq() == old(
                            self,
                        ).comp_events().lookup(c).added_seq() + repeated(*entity, occurrences(ids@.take(i as int), c))
                        &&& self.comp_events().lookup(c).removed_seq() == old(
                            self,
                        ).comp_events().lookup(c).removed_seq()
                    },
                old(self).kept_but(&*self, 7),
                self.res() == old(self).res(),
                self.local_res() == old(self).local_res(),
                i <= ids@.len(),
                self.wf(),
                self.ents() == old(self).ents(),
                self.archs() == old(self).archs(),
                self.evs() == old(self).evs(),
                self.comp_events().key_seq() == old(self).comp_events().key_seq(),
                self.comp_events().index_map() == old(self).comp_events().index_map(),
            decreases ids@.len() - i,
        {
            let id = ids[i];
            let ghost before = self.comp_events();
            proof {
                before.lemma_wf();
                assert(ids@.take(i + 1).drop_last() =~= ids@.take(i as int));
                assert(ids@.take(i + 1).last() == id);
            }
            match self.component_events.get_mut(&id) {
                Some(events) => {
                    events.add(entity);
                    proof {
                        before.lemma_update_lookup(&self.comp_events(), id, self.comp_events().lookup(id));
                    }
                },
                None => {},
            }
            proof {
                assert forall|c: ComponentId| #[trigger] self.comp_events().has(c) implies {
                    &&& self.comp_events().lookup(c).added_seq() == old(
                        self,
                    ).comp_events().lookup(c).added_seq() + repeated(*entity, occurrences(ids@.take(i + 1), c))
                    &&& self.comp_events().lookup(c).removed_seq() == old(
                        self,
                    ).comp_events().lookup(c).removed_seq()
                } by {
                    let n = occurrences(ids@.take(i as int), c);
                    assert(before.has(c));
                    if c == id {
                        assert(repeated(*entity, n + 1) =~= repeated(*entity, n).push(*entity));
                        assert(old(self).comp_events().lookup(c).added_seq() + repeated(*entity, n + 1)
                            =~= (old(self).comp_events().lookup(c).added_seq() + repeated(*entity, n)).push(*entity));
                    } else {
                        assert(c.spec_key() != id.spec_key());
                    }
                }
            }
            i = i + 1;
        }
        proof {
            assert(ids@.take(ids@.len() as int) =~= ids@);
        }
    }

    /// Records, for each cell whose component is registered, that its value
    /// was taken from `entity`.
    fn note_removed(&mut self, entity: &Entity, cells: Vec<(crate::ids::ColumnKey, crate::storage::table::ColumnCell<T>)>)
        requires
            old(self).wf(),
        ensures
            final(self).wf(),
            final(self).ents() == old(self).ents(),
            final(self).archs() == old(self).archs(),
            final(self).evs() == old(self).evs(),
            final(self).comp_events().key_seq() == old(self).comp_events().key_seq(),
            final(self).comp_events().index_map() == old(self).comp_events().index_map(),
            old(self).kept_but(&*final(self), 7),
            final(self).res() == old(self).res(),
            final(self).local_res() == old(self).local_res(),
            forall|c: ComponentId| #[trigger]
                final(self).comp_events().has(c) ==> {
                    &&& final(self).comp_events().lookup(c).added_seq() == old(
                        self,
                    ).comp_events().lookup(c).added_seq()
                    &&& final(self).comp_events().lookup(c).removed_seq() == old(
                        self,
                    ).comp_events().lookup(c).removed_seq() + taken_for(cells@, c, *entity)
                },
    {
        let ghost all = cells@;
        let mut cells = cells;
        let n = cells.len();
        let mut i: usize = 0;
        while i < n
            invariant
                cells@ == all.subrange(i as int, n as int),
                n == all.len(),
                forall|c: ComponentId| #[trigger]
                    self.comp_events().has(c) ==> {
                        &&& self.comp_events().lookup(c).added_seq() == old(
                            self,
                        ).comp_events().lookup(c).added_seq()
                        &&& self.comp_events().lookup(c).removed_seq() == old(
                            self,
                        ).comp_events().lookup(c).removed_seq() + taken_for(all.take(i as int), c, *entity)
                    },
                old(self).kept_but(&*self, 7),
                self.res() == old(self).res(),
                self.local_res() == old(self).local_res(),
                i <= n,
                cells@.len() == n - i,
                self.wf(),
                self.ents() == old(self).ents(),
                self.archs() == old(self).archs(),
                self.evs() == old(self).evs(),
                self.comp_events().key_seq() == old(self).comp_events().key_seq(),
                self.comp_events().index_map() == old(self).comp_events().index_map(),
            decreases n - i,
        {
            let (key, cell) = cells.remove(0);
            let ghost cell0 = cell;
            proof {
                assert((key, cell) == all[i as int]);
                assert(cells@ =~= all.subrange(i + 1, n as int));
                assert(all.take(i + 1).drop_last() =~= all.take(i as int));
                assert(all.take(i + 1).last() == (key, cell));
            }
            let id = key.component();
            let ghost before = self.comp_events();
            proof {
                before.lemma_wf();
            }
            match self.component_events.get_mut(&id) {
                Some(events) => {
                    events.remove(entity, cell);
                    proof {
                        before.lemma_update_lookup(&self.comp_events(), id, self.comp_events().lookup(id));
                    }
                },
                None => {},
            }
            proof {
                assert forall|c: ComponentId| #[trigger] self.comp_events().has(c) implies {
                    &&& self.comp_events().lookup(c).added_seq() == old(
                        self,
                    ).comp_events().lookup(c).added_seq()
                    &&& self.comp_events().lookup(c).removed_seq() == old(
                        self,
                    ).comp_events().lookup(c).removed_seq() + taken_for(all.take(i + 1), c, *entity)
                } by {
                    let t = taken_for(all.take(i as int), c, *entity);
                    assert(before.has(c));
                    if c == id {
                        let item = RemovedComponent { entity: *entity, component: cell0@ };
                        assert(self.comp_events().lookup(c).removed_seq().last() == item);
                        assert(old(self).comp_events().lookup(c).removed_seq() + t.push(item)
                            =~= (old(self).comp_events().lookup(c).removed_seq() + t).push(item));
                    } else {
                        assert(c.spec_key() != id.spec_key());
                    }
                }
            }
            i = i + 1;
        }
        proof {
            assert(all.take(n as int) =~= all);
        }
    }

    proof fn lemma_noted_nothing(&self, new: &Self, from: Seq<Entity>)
        requires
            new.comp_events() == self.comp_events(),
        ensures
            forall|c: ComponentId| #[trigger] new.comp_events().has(c) ==> self.noted_removed(new, c, from),
    {
        assert forall|c: ComponentId| #[trigger] new.comp_events().has(c) implies self.noted_removed(new, c, from) by {
            let d = self.comp_events().lookup(c).removed_seq();
            assert(d + Seq::<RemovedComponent<T>>::empty() =~= d);
        }
    }

    proof fn lemma_taken_for_entity(
        cells: Seq<(crate::ids::ColumnKey, crate::storage::table::ColumnCell<T>)>,
        c: ComponentId,
        e: Entity,
    )
        ensures
            forall|j: int|
                0 <= j < taken_for(cells, c, e).len() ==> (#[trigger] taken_for(cells, c, e)[j]).entity
                    == e,
        decreases cells.len(),
    {
        if cells.len() > 0 {
            Self::lemma_taken_for_entity(cells.drop_last(), c, e);
            let rest = taken_for(cells.drop_last(), c, e);
            assert forall|j: int| 0 <= j < taken_for(cells, c, e).len() implies (#[trigger] taken_for(
                cells,
                c,
                e,
            )[j]).entity == e by {
                if j < rest.len() {
                    assert(rest[j].entity == e);
                }
            }
        }
    }

    proof fn lemma_noted_removed(
        &self,
        new: &Self,
        e: Entity,
        cells: Seq<(crate::ids::ColumnKey, crate::storage::table::ColumnCell<T>)>,
        from: Seq<Entity>,
    )
        requires
            from.contains(e),
            forall|c: ComponentId| #[trigger]
                new.comp_events().has(c) ==> {
                    &&& new.comp_events().lookup(c).added_seq() == self.comp_events().lookup(
                        c,
                    ).added_seq()
                    &&& new.comp_events().lookup(c).removed_seq() == self.comp_events().lookup(
                        c,
                    ).removed_seq() + taken_for(cells, c, e)
                },
        ensures
            forall|c: ComponentId| #[trigger] new.comp_events().has(c) ==> self.noted_removed(new, c, from),
    {
        assert forall|c: ComponentId| #[trigger] new.comp_events().has(c) implies self.noted_removed(
            new,
            c,
            from,
        ) by {
            Self::lemma_taken_for_entity(cells, c, e);
            let more = taken_for(cells, c, e);
            assert(new.comp_events().lookup(c).removed_seq() == (self.comp_events().lookup(
                c,
            ).removed_seq() + more));
        }
    }

    proof fn lemma_noted_removed_twice(&self, mid: &Self, new: &Self, from: Seq<Entity>)
        requires
            mid.comp_events().index_map() == self.comp_events().index_map(),
            forall|c: ComponentId| #[trigger] mid.comp_events().has(c) ==> self.noted_removed(mid, c, from),
            forall|c: ComponentId| #[trigger] new.comp_events().has(c) ==> mid.noted_removed(new, c, from),
            new.comp_events().index_map() == mid.comp_events().index_map(),
        ensures
            forall|c: ComponentId| #[trigger] new.comp_events().has(c) ==> self.noted_removed(new, c, from),
    {
        assert forall|c: ComponentId| #[trigger] new.comp_events().has(c) implies self.noted_removed(
            new,
            c,
            from,
        ) by {
            assert(mid.comp_events().has(c));
            let m1 = choose|more: Seq<RemovedComponent<T>>|
                #![trigger (self.comp_events().lookup(c).removed_seq() + more)]
                mid.comp_events().lookup(c).removed_seq() == (self.comp_events().lookup(c).removed_seq()
                    + more) && forall|j: int| 0 <= j < more.len() ==> from.contains((#[trigger] more[j]).entity);
            let m2 = choose|more: Seq<RemovedComponent<T>>|
                #![trigger (mid.comp_events().lookup(c).removed_seq() + more)]
                new.comp_events().lookup(c).removed_seq() == (mid.comp_events().lookup(c).removed_seq()
                    + more) && forall|j: int| 0 <= j < more.len() ==> from.contains((#[trigger] more[j]).entity);
            let d = self.comp_events().lookup(c).removed_seq();
            assert(d + m1 + m2 =~= d + (m1 + m2));
            assert forall|j: int| 0 <= j < (m1 + m2).len() implies from.contains((#[trigger] (m1 + m2)[j]).entity) by {
                if j < m1.len() {
                    assert((m1 + m2)[j] == m1[j]);
                } else {
                    assert((m1 + m2)[j] == m2[j - m1.len()]);
                }
            }
        }
    }

    /// Carries out a spawn request: spawns the entity, queues a request to
    /// set its parent where it has one, and moves it to the archetype of its
    /// components; then records it.
    fn invoke_spawn(&mut self, spawn: Spawn<T>)
        requires
            old(self).wf(),
            spawn.components.wf(),
        ensures
            final(self).wf(),
            final(self).evs().meta_map() == old(self).evs().meta_map(),
            spawn.parent is None ==> final(self).evs().queue() == old(self).evs().queue(),
            final(self).evs().queue() == old(self).evs().queue() || (final(self).evs().queue().len()
                == old(self).evs().queue().len() + 1 && final(self).evs().queue().drop_last() == old(
                self,
            ).evs().queue() && final(self).evs().queue().last().payload() is SetParent),
            old(self).carried_out(&*final(self), WorldEvent::Spawn(spawn)),
    {
        if !(self.entities.can_spawn() && self.archetypes.can_add_entity()) {
            return;
        }
        let ghost comps = spawn.components;
        let ghost root = old(self).archs().root();
        let entity = self.spawn(spawn.parent);
        proof {
            old(self).archs().lemma_add_components_fit_kept(&self.archs(), root, root, comps);
        }
        match spawn.parent {
            Some(p) => {
                self.add_event(WorldEvent::SetParent(SetParent::new(entity, Some(p))));
                proof {
                    assert(self.evs().queue().drop_last() =~= old(self).evs().queue());
                }
            },
            None => {},
        }
        let ghost q = self.evs();
        let ghost w0 = *self;
        if self.archetypes.can_remove(&entity) && self.archetypes.can_add_components(&entity, &spawn.components) {
            match self.add_components(&entity, spawn.components) {
                Some(m) => {
                    proof {
                        let t = m.target();
                        if (forall|edge: EdgeId| #[trigger] old(self).archs().arch(root).edge_target(
                            edge,
                            EdgeType::Add,
                        ) is None) {
                            assert(w0.archs().arch_of(entity) == root);
                            assert forall|edge: EdgeId| #[trigger] w0.archs().arch(w0.archs().arch_of(entity)).edge_target(
                                edge,
                                EdgeType::Add,
                            ) is None by {
                                assert(w0.archs().arch(root).edge_target(edge, EdgeType::Add) == old(
                                    self,
                                ).archs().arch(root).edge_target(edge, EdgeType::Add));
                            }
                            assert forall|k: ColumnKey| #[trigger] self.archs().has_column(t, k) <==> comps.has(k) by {
                                w0.archs().lemma_column_listed(root, k);
                            }
                            assert forall|k: ColumnKey| !#[trigger] w0.archs().has_column(root, k) by {
                                w0.archs().lemma_column_listed(root, k);
                            }
                        }
                    }
                    let ks = m.added().keys();
                    let ghost w = *self;
                    self.note_added(&entity, ks);
                    proof {
                        assert(old(self).archs().fits_add_components(root, comps));
                        assert forall|c: ComponentId| #[trigger] self.comp_events().has(c) implies old(self).noted_exactly(
                            &*self,
                            c,
                            entity,
                            if comps.has(ColumnKey(c.0)) { 1nat } else { 0nat },
                        ) by {
                            lemma_occurrences_distinct(ks@, c);
                            assert(ComponentId(ColumnKey(c.0).0) == c);
                            assert(w.comp_events().lookup(c) == old(self).comp_events().lookup(c));
                        }
                    }
                },
                None => {
                    proof {
                        assert(false);
                    }
                },
            }
        } else {
            proof {
                assert(!old(self).archs().fits_add_components(root, comps));
                assert forall|c: ComponentId| #[trigger] self.comp_events().has(c) implies old(self).noted_exactly(
                    &*self,
                    c,
                    entity,
                    0nat,
                ) by {
                    let a = old(self).comp_events().lookup(c).added_seq();
                    assert(a + repeated(entity, 0) =~= a);
                }
            }
        }
        self.spawned.add(entity);
    }

    /// Carries out a despawn request, recording the values taken and the
    /// entities despawned, where there are any.
    fn invoke_despawn(&mut self, despawn: Despawn)
        requires
            old(self).wf(),
        ensures
            final(self).wf(),
            final(self).evs() == old(self).evs(),
            old(self).carried_out(&*final(self), WorldEvent::Despawn(despawn)),
    {
        let mut despawned = self.despawn(&despawn.entity);
        let ghost w1 = *self;
        let ghost d0 = despawned;
        proof {
            d0.lemma_wf();
            d0.lemma_proper_distinct();
        }
        let ghost ks = d0.key_seq();
        let mut items = despawned.drain();
        let ghost all = items@;
        proof {
            assert forall|j: int| 0 <= j < all.len() implies (#[trigger] all[j]).1.wf() by {
                assert(all[j].1 == d0.value_seq()[j]);
            }
        }
        let mut entities: Vec<Entity> = Vec::new();
        let n = items.len();
        let mut i: usize = 0;
        proof {
            old(self).lemma_noted_nothing(&*self, ks);
        }
        while i < n
            invariant
                forall|c: ComponentId| #[trigger]
                    self.comp_events().has(c) ==> old(self).noted_removed(&*self, c, ks),
                self.comp_events().index_map() == old(self).comp_events().index_map(),
                self.ents() == w1.ents(),
                w1.kept_but(&*self, 7),
                old(self).same_setup(&*self),
                i <= n,
                n == all.len(),
                n == ks.len(),
                forall|j: int| 0 <= j < n ==> (#[trigger] all[j]).0 == ks[j],
                items@ == all.subrange(i as int, n as int),
                entities@ == ks.take(i as int),
                forall|j: int| 0 <= j < all.len() ==> (#[trigger] all[j]).1.wf(),
                self.wf(),
                self.evs() == old(self).evs(),
                i == 0 ==> self.comp_events() == old(self).comp_events(),
                self.archs() == w1.archs(),
                old(self).wf(),
                old(self).archs().all_held() ==> forall|c: ComponentId| #[trigger]
                    self.comp_events().has(c) ==> old(self).noted_taken(
                        &*self,
                        c,
                        old(self).despawn_records(ks.take(i as int), c),
                    ),
                old(self).archs().all_held() ==> forall|j: int|
                    0 <= j < n ==> old(self).took_row(ks[j], #[trigger] d0.value_seq()[j]),
                forall|j: int| 0 <= j < n ==> (#[trigger] all[j]).1 == d0.value_seq()[j],
            decreases n - i,
        {
            let ghost w_pre = *self;
            let (e, row) = items.remove(0);
            proof {
                assert(all[i as int] == (e, row));
                assert(items@ =~= all.subrange(i + 1, n as int));
                assert(ks.take(i + 1) =~= ks.take(i as int).push(e));
                assert(ks.contains(e)) by {
                    assert(ks[i as int] == e);
                }
            }
            entities.push(e);
            let mut row = row;
            let cells = row.drain();
            let ghost w = *self;
            let ghost cs = cells@;
            self.note_removed(&e, cells);
            proof {
                w.lemma_noted_removed(&*self, e, cs, ks);
                old(self).lemma_noted_removed_twice(&w, &*self, ks);
                if old(self).archs().all_held() {
                    let row0 = all[i as int].1;
                    assert(row0 == d0.value_seq()[i as int]);
                    assert(old(self).took_row(e, row0));
                    let id = old(self).archs().arch_of(e);
                    assert(old(self).archs().held(e));
                    assert(ks.take(i + 1).drop_last() =~= ks.take(i as int));
                    assert(ks.take(i + 1).last() == e);
                    assert forall|c: ComponentId| #[trigger] self.comp_events().has(c) implies old(self).noted_taken(
                        &*self,
                        c,
                        old(self).despawn_records(ks.take(i + 1), c),
                    ) by {
                        let k = ColumnKey(c.0);
                        lemma_taken_row(row0, c, e);
                        row0.lemma_has_iff_contains(k);
                        old(self).archs().lemma_column_listed(id, k);
                        if row0.has(k) {
                            assert(old(self).taken_value(e, k) == Some(row0.value_of(k)));
                        }
                        assert(taken_for(cs, c, e) == old(self).taken_record(e, c));
                        assert(w.comp_events().has(c));
                        let d = old(self).comp_events().lookup(c).removed_seq();
                        let a = old(self).despawn_records(ks.take(i as int), c);
                        let b = old(self).taken_record(e, c);
                        assert(d + a + b =~= d + (a + b));
                    }
                }
            }
            i = i + 1;
        }
        proof {
            assert(ks.take(n as int) =~= ks);
        }
        let ghost before_add = self.despawned_seq();
        proof {
            assert forall|a: int, b: int| 0 <= a < ks.len() && 0 <= b < ks.len() && a != b implies ks[a] != ks[b] by {
                if a < b {
                    assert(ks[a].spec_key() != ks[b].spec_key());
                } else {
                    assert(ks[b].spec_key() != ks[a].spec_key());
                }
            }
            assert(ks.no_duplicates());
        }
        if entities.len() > 0 {
            self.despawned.add(entities);
            assert(self.despawned_seq().drop_last() =~= before_add);
            assert(self.despawned_seq().last()@ == ks);
            assert(old(self).despawn_list(&*self) == ks);
        } else {
            assert(ks.len() == 0);
            assert(old(self).despawn_list(&*self) =~= ks);
        }
    }

    /// Carries out a request to set a parent, recording the change.
    fn invoke_set_parent(&mut self, request: SetParent)
        requires
            old(self).wf(),
        ensures
            final(self).wf(),
            final(self).evs() == old(self).evs(),
            old(self).carried_out(&*final(self), WorldEvent::SetParent(request)),
    {
        let old_parent = self.set_parent(&request.entity, request.parent.as_ref());
        let ghost before_add = self.parent_update_seq();
        self.parent_updates.add(ParentUpdate::new(request.entity, request.parent, old_parent));
        assert(self.parent_update_seq().drop_last() =~= before_add);
    }

    /// Sets the parent of each child to `parent`, or to none, recording the
    /// changes in order.
    fn reparent(&mut self, parent: Option<Entity>, children: &Vec<Entity>) -> (r: Vec<ParentUpdate>)
        requires
            old(self).wf(),
        ensures
            final(self).wf(),
            final(self).evs() == old(self).evs(),
            final(self).archs() == old(self).archs(),
            final(self).comp_events() == old(self).comp_events(),
            r@.len() == children@.len(),
            forall|i: int|
                0 <= i < r@.len() ==> (#[trigger] r@[i]).spec_entity() == children@[i] && r@[i].spec_parent()
                    == parent,
            forall|i: int|
                0 <= i < r@.len() ==> (#[trigger] r@[i]).spec_old_parent() == old(self).parent_before(
                    children@,
                    i,
                    parent,
                ),
            forall|e: Entity|
                old(self).ents().is_alive(e) && children@.contains(e) ==> #[trigger] final(self).ents().parent_of(e) == parent,
            forall|e: Entity|
                old(self).ents().is_alive(e) && !children@.contains(e) ==> #[trigger] final(self).ents().parent_of(e) == old(self).ents().parent_of(e),
            old(self).kept_but(&*final(self), 7),
            old(self).same_setup(&*final(self)),
            forall|e: Entity| #[trigger] final(self).ents().is_alive(e) == old(self).ents().is_alive(e),
            Self::updates_for(r@, children@, parent),
    {
        let mut updates: Vec<ParentUpdate> = Vec::new();
        let mut i: usize = 0;
        while i < children.len()
            invariant
                old(self).kept_but(&*self, 7),
                old(self).same_setup(&*self),
                forall|e: Entity| #[trigger] self.ents().is_alive(e) == old(self).ents().is_alive(e),
                i <= children@.len(),
                updates@.len() == i,
                self.wf(),
                self.evs() == old(self).evs(),
                self.archs() == old(self).archs(),
                self.comp_events() == old(self).comp_events(),
                self.ents().slots() == old(self).ents().slots(),
                forall|j: int|
                    0 <= j < i ==> (#[trigger] updates@[j]).spec_entity() == children@[j]
                        && updates@[j].spec_parent() == parent,
                forall|j: int|
                    0 <= j < i ==> (#[trigger] updates@[j]).spec_old_parent() == old(self).parent_before(
                        children@,
                        j,
                        parent,
                    ),
                forall|e: Entity|
                    old(self).ents().is_alive(e) && children@.take(i as int).contains(e) ==> #[trigger] self.ents().parent_of(e) == parent,
                forall|e: Entity|
                    old(self).ents().is_alive(e) && !children@.take(i as int).contains(e) ==> #[trigger] self.ents().parent_of(e)
                        == old(self).ents().parent_of(e),
            decreases children@.len() - i,
        {
            let child = children[i];
            let ghost cur = *self;
            let old_parent = self.set_parent(&child, parent.as_ref());
            proof {
                assert(children@.take(i + 1) =~= children@.take(i as int).push(child));
                if old(self).ents().is_alive(child) {
                    if children@.take(i as int).contains(child) {
                        assert(cur.ents().parent_of(child) == parent);
                    } else {
                        assert(cur.ents().parent_of(child) == old(self).ents().parent_of(child));
                    }
                }
                assert(old_parent == old(self).parent_before(children@, i as int, parent));
                assert forall|e: Entity|
                    old(self).ents().is_alive(e) && children@.take(i + 1).contains(e) implies #[trigger] self.ents().parent_of(e) == parent by {
                    if e != child {
                        assert(children@.take(i as int).contains(e));
                        if old(self).ents().is_alive(child) {
                            assert(e.id != child.id);
                        }
                    }
                }
                assert forall|e: Entity|
                    old(self).ents().is_alive(e) && !children@.take(i + 1).contains(e) implies #[trigger] self.ents().parent_of(e)
                        == old(self).ents().parent_of(e) by {
                    if e == child {
                        assert(children@.take(i + 1)[i as int] == child);
                    }
                    if children@.take(i as int).contains(e) {
                        let k = choose|k: int| 0 <= k < i && children@.take(i as int)[k] == e;
                        assert(children@.take(i + 1)[k] == e);
                    }
                    if old(self).ents().is_alive(child) {
                        assert(e.id != child.id);
                    }
                }
            }
            updates.push(ParentUpdate::new(child, parent, old_parent));
            i = i + 1;
        }
        proof {
            assert(children@.take(children@.len() as int) =~= children@);
        }
        updates
    }

    /// Carries out a request to add children, recording the changes.
    fn invoke_add_children(&mut self, request: AddChildren)
        requires
            old(self).wf(),
        ensures
            final(self).wf(),
            final(self).evs() == old(self).evs(),
            old(self).carried_out(&*final(self), WorldEvent::AddChildren(request)),
    {
        let updates = self.reparent(Some(request.parent), &request.children);
        let ghost before_add = self.children_added_seq();
        self.children_added.add(updates);
        assert(self.children_added_seq().drop_last() =~= before_add);
    }

    /// Carries out a request to remove children, recording the changes.
    fn invoke_remove_children(&mut self, request: RemoveChildren)
        requires
            old(self).wf(),
        ensures
            final(self).wf(),
            final(self).evs() == old(self).evs(),
            old(self).carried_out(&*final(self), WorldEvent::RemoveChildren(request)),
    {
        let updates = self.reparent(None, &request.children);
        let ghost before_add = self.children_removed_seq();
        self.children_removed.add(updates);
        assert(self.children_removed_seq().drop_last() =~= before_add);
    }

    /// Carries out a request to add one component, recording the entity
    /// twice for the component where it is registered.
    fn invoke_add_component(&mut self, request: AddComponent<T>)
        requires
            old(self).wf(),
        ensures
            final(self).wf(),
            final(self).evs() == old(self).evs(),
            old(self).carried_out(&*final(self), WorldEvent::AddComponent(request)),
    {
        let entity = request.entity;
        let id = request.id;
        let ghost req = request;
        match request.component {
            Some(component) => {
                if self.archetypes.can_remove(&entity) && self.archetypes.can_add_component(&entity, &id) {
                    match self.add_component(&entity, &id, component) {
                        Some(_) => {
                            let ids = [id];
                            let ghost w0 = *self;
                            self.note_added(&entity, &ids);
                            let ghost w1 = *self;
                            self.note_added(&entity, &ids);
                            proof {
                                assert(old(self).adds_component(req));
                                assert forall|c: ComponentId| #[trigger] self.comp_events().has(c) implies old(self).noted_exactly(
                                    &*self,
                                    c,
                                    entity,
                                    if c == id { 2nat } else { 0nat },
                                ) by {
                                    lemma_occurrences_one(id, c);
                                    assert(ids@ =~= seq![id]);
                                    let a = old(self).comp_events().lookup(c).added_seq();
                                    assert(w1.comp_events().has(c));
                                    assert(w0.comp_events().lookup(c) == old(self).comp_events().lookup(c));
                                    if c == id {
                                        assert(a + repeated(entity, 1) + repeated(entity, 1) =~= a + repeated(entity, 2));
                                    } else {
                                        assert(a + repeated(entity, 0) + repeated(entity, 0) =~= a + repeated(entity, 0));
                                    }
                                }
                            }
                            return;
                        },
                        None => {},
                    }
                }
            },
            None => {},
        }
        proof {
            assert(!old(self).adds_component(req));
            assert forall|c: ComponentId| #[trigger] self.comp_events().has(c) implies old(self).noted_exactly(
                &*self,
                c,
                entity,
                0nat,
            ) by {
                let a = old(self).comp_events().lookup(c).added_seq();
                assert(a + repeated(entity, 0) =~= a);
            }
        }
    }

    /// Carries out a request to add several components, recording the
    /// entity for each component added and for the request.
    fn invoke_add_components(&mut self, request: AddComponents<T>)
        requires
            old(self).wf(),
            request.components.wf(),
        ensures
            final(self).wf(),
            final(self).evs() == old(self).evs(),
            old(self).carried_out(&*final(self), WorldEvent::AddComponents(request)),
    {
        let entity = request.entity;
        let ghost req = request;
        if self.archetypes.can_remove(&entity) && self.archetypes.can_add_components(&entity, &request.components) {
            match self.add_components(&entity, request.components) {
                Some(m) => {
                    let ks = m.added().keys();
                    let ghost w0 = *self;
                    self.note_added(&entity, ks);
                    proof {
                        assert(old(self).adds_components(req));
                        assert forall|c: ComponentId| #[trigger] self.comp_events().has(c) implies old(self).noted_exactly(
                            &*self,
                            c,
                            entity,
                            if req.components.has(ColumnKey(c.0)) { 1nat } else { 0nat },
                        ) by {
                            lemma_occurrences_distinct(ks@, c);
                            assert(ComponentId(ColumnKey(c.0).0) == c);
                            assert(w0.comp_events().lookup(c) == old(self).comp_events().lookup(c));
                        }
                    }
                    let ghost before_add = self.components_added_seq();
                    self.components_added.add(entity);
                    assert(self.components_added_seq().drop_last() =~= before_add);
                    assert(self.components_added_seq() =~= old(self).components_added_seq().push(entity));
                    return;
                },
                None => {},
            }
        }
        proof {
            assert(!old(self).adds_components(req));
            assert forall|c: ComponentId| #[trigger] self.comp_events().has(c) implies old(self).noted_exactly(
                &*self,
                c,
                entity,
                0nat,
            ) by {
                let a = old(self).comp_events().lookup(c).added_seq();
                assert(a + repeated(entity, 0) =~= a);
            }
        }
    }

    /// Carries out a request to take one component, recording the value
    /// taken for the component where it is registered.
    fn invoke_remove_component(&mut self, request: RemoveComponent)
        requires
            old(self).wf(),
        ensures
            final(self).wf(),
            final(self).evs() == old(self).evs(),
            old(self).carried_out(&*final(self), WorldEvent::RemoveComponent(request)),
    {
        let entity = request.entity;
        let id = request.id;
        let ghost req = request;
        if self.archetypes.can_remove(&entity) && self.archetypes.can_remove_component(&entity, &id) {
            match self.remove_component(&entity, &id) {
                Some(m) => {
                    let mut m = m;
                    let mut removed = Row::new();
                    std::mem::swap(&mut removed, m.removed_mut());
                    let ghost rm0 = removed;
                    let cells = removed.drain();
                    let ghost w0 = *self;
                    let ghost cs = cells@;
                    self.note_removed(&entity, cells);
                    proof {
                        assert(old(self).takes_component(req));
                        assert forall|c: ComponentId| #[trigger] self.comp_events().has(c) implies old(self).noted_taken(
                            &*self,
                            c,
                            if c == id { old(self).taken_record(entity, c) } else { Seq::empty() },
                        ) by {
                            lemma_taken_row(rm0, c, entity);
                            assert(w0.comp_events().lookup(c) == old(self).comp_events().lookup(c));
                            let k = ColumnKey(c.0);
                            if c != id {
                                assert(!rm0.has(k));
                            } else if rm0.has(k) {
                                assert(old(self).taken_value(entity, k) == Some(rm0.value_of(k)));
                            }
                            let d = old(self).comp_events().lookup(c).removed_seq();
                            assert(d + Seq::<RemovedComponent<T>>::empty() =~= d);
                        }
                    }
                    return;
                },
                None => {},
            }
        }
        proof {
            assert(!old(self).takes_component(req));
            assert forall|c: ComponentId| #[trigger] self.comp_events().has(c) implies old(self).noted_taken(
                &*self,
                c,
                Seq::empty(),
            ) by {
                let d = old(self).comp_events().lookup(c).removed_seq();
                assert(d + Seq::<RemovedComponent<T>>::empty() =~= d);
            }
        }
    }

    /// Carries out a request to take several components, recording each
    /// value taken and the entity.
    fn invoke_remove_components(&mut self, request: RemoveComponents)
        requires
            old(self).wf(),
        ensures
            final(self).wf(),
            final(self).evs() == old(self).evs(),
            old(self).carried_out(&*final(self), WorldEvent::RemoveComponents(request)),
    {
        let entity = request.entity;
        let ghost req = request;
        if self.archetypes.can_remove(&entity) && self.archetypes.can_remove_components(&entity, &request.components) {
            match self.remove_components(&entity, request.components) {
                Some(m) => {
                    let mut m = m;
                    let mut removed = Row::new();
                    std::mem::swap(&mut removed, m.removed_mut());
                    let ghost rm0 = removed;
                    let cells = removed.drain();
                    let ghost w0 = *self;
                    let ghost cs = cells@;
                    self.note_removed(&entity, cells);
                    proof {
                        assert(old(self).takes_components(req));
                        assert forall|c: ComponentId| #[trigger] self.comp_events().has(c) implies old(self).noted_taken(
                            &*self,
                            c,
                            if req.components.key_seq().contains(c) {
                                old(self).taken_record(entity, c)
                            } else {
                                Seq::empty()
                            },
                        ) by {
                            lemma_taken_row(rm0, c, entity);
                            assert(w0.comp_events().lookup(c) == old(self).comp_events().lookup(c));
                            let k = ColumnKey(c.0);
                            assert(ComponentId(k.0) == c);
                            if rm0.has(k) {
                                assert(old(self).taken_value(entity, k) == Some(rm0.value_of(k)));
                            }
                            let d = old(self).comp_events().lookup(c).removed_seq();
                            assert(d + Seq::<RemovedComponent<T>>::empty() =~= d);
                        }
                    }
                    let ghost before_add = self.components_removed_seq();
                    self.components_removed.add(entity);
                    assert(self.components_removed_seq() =~= old(self).components_removed_seq().push(entity));
                    return;
                },
                None => {},
            }
        }
        proof {
            assert(!old(self).takes_components(req));
            assert forall|c: ComponentId| #[trigger] self.comp_events().has(c) implies old(self).noted_taken(
                &*self,
                c,
                Seq::empty(),
            ) by {
                let d = old(self).comp_events().lookup(c).removed_seq();
                assert(d + Seq::<RemovedComponent<T>>::empty() =~= d);
            }
        }
    }
}

impl<T> World<T> {
    /// Carries out the request `event`.
    pub fn invoke(&mut self, event: WorldEvent<T>)
        requires
            old(self).wf(),
            event.wf(),
        ensures
            final(self).wf(),
            final(self).evs().meta_map() == old(self).evs().meta_map(),
            !(event is Spawn) ==> final(self).evs().queue() == old(self).evs().queue(),
            final(self).evs().queue() == old(self).evs().queue() || (final(self).evs().queue().len()
                == old(self).evs().queue().len() + 1 && final(self).evs().queue().drop_last() == old(
                self,
            ).evs().queue() && final(self).evs().queue().last().payload() is SetParent),
            old(self).carried_out(&*final(self), event),
    {
        match event {
            WorldEvent::Spawn(s) => self.invoke_spawn(s),
            WorldEvent::Despawn(d) => self.invoke_despawn(d),
            WorldEvent::SetParent(p) => self.invoke_set_parent(p),
            WorldEvent::AddChildren(a) => self.invoke_add_children(a),
            WorldEvent::RemoveChildren(r) => self.invoke_remove_children(r),
            WorldEvent::AddComponent(a) => self.invoke_add_component(a),
            WorldEvent::AddComponents(a) => self.invoke_add_components(a),
            WorldEvent::RemoveComponent(r) => self.invoke_remove_component(r),
            WorldEvent::RemoveComponents(r) => self.invoke_remove_components(r),
        }
    }

    /// Takes the queued requests of the kind `ty` out and carries each out
    /// in order; the others stay queued, in order.
    pub fn flush_events(&mut self, ty: u64)
        requires
            old(self).wf(),
        ensures
            final(self).wf(),
            final(self).evs().meta_map() == old(self).evs().meta_map(),
            exists|start: Self|
                #![trigger old(self).drained_kind_to(&start, ty)]
                old(self).drained_kind_to(&start, ty) && start.ran(
                    Self::payloads(
                        of_kind(old(self).evs().queue(), old(self).evs().queue().len() as int, ty, true),
                    ),
                    &*final(self),
                ),
    {
        let mut events = self.events.remove(ty);
        let ghost all = events@;
        let ghost start = *self;
        let ghost ps = Self::payloads(all);
        proof {
            assert(old(self).drained_kind_to(&start, ty));
            assert(ps.take(0) =~= Seq::<WorldEvent<T>>::empty());
        }
        proof {
            lemma_of_kind_wf(old(self).evs().queue(), old(self).evs().queue().len() as int, ty, true);
            lemma_of_kind_wf(old(self).evs().queue(), old(self).evs().queue().len() as int, ty, false);
        }
        let n = events.len();
        let mut i: usize = 0;
        while i < n
            invariant
                i <= n,
                n == all.len(),
                events@ == all.subrange(i as int, n as int),
                forall|j: int| 0 <= j < all.len() ==> (#[trigger] all[j]).payload().wf(),
                self.wf(),
                self.evs().meta_map() == old(self).evs().meta_map(),
                start.ran(ps.take(i as int), &*self),
                ps == Self::payloads(all),
            decreases n - i,
        {
            let event = events.remove(0);
            proof {
                assert(event == all[i as int]);
                assert(events@ =~= all.subrange(i + 1, n as int));
            }
            let ghost before = *self;
            self.invoke(event.take());
            proof {
                let s1 = ps.take(i + 1);
                assert(s1.drop_last() =~= ps.take(i as int));
                assert(s1.last() == all[i as int].payload());
                assert(before.carried_out(&*self, s1.last()));
                assert(start.ran(s1, &*self));
            }
            i = i + 1;
        }
        proof {
            assert(ps.take(n as int) =~= ps);
        }
    }

    /// Takes every queued request out and carries each out in order. The
    /// requests queued meanwhile, to set the parents of spawned entities,
    /// stay queued for the next round.
    pub fn flush_round(&mut self)
        requires
            old(self).wf(),
        ensures
            final(self).wf(),
            final(self).evs().meta_map() == old(self).evs().meta_map(),
            only_parent_events(final(self).evs().queue()),
            only_parent_events(old(self).evs().queue()) ==> final(self).evs().queue().len() == 0,
            old(self).round(&*final(self)),
    {
        let ghost q0 = self.evs().queue();
        let mut events = self.events.drain();
        let ghost all = events@;
        let ghost start = *self;
        let ghost ps = Self::payloads(all);
        proof {
            assert(old(self).drained_to(&start));
            assert(ps.take(0) =~= Seq::<WorldEvent<T>>::empty());
        }
        let n = events.len();
        let mut i: usize = 0;
        while i < n
            invariant
                start.ran(ps.take(i as int), &*self),
                ps == Self::payloads(all),
                i <= n,
                n == all.len(),
                all == q0,
                q0 == old(self).evs().queue(),
                events@ == all.subrange(i as int, n as int),
                forall|j: int| 0 <= j < all.len() ==> (#[trigger] all[j]).payload().wf(),
                self.wf(),
                self.evs().meta_map() == old(self).evs().meta_map(),
                only_parent_events(self.evs().queue()),
                only_parent_events(all) ==> self.evs().queue().len() == 0,
            decreases n - i,
        {
            let event = events.remove(0);
            proof {
                assert(event == all[i as int]);
                assert(events@ =~= all.subrange(i + 1, n as int));
            }
            let ghost q1 = self.evs().queue();
            let ghost was_spawn = event.payload() is Spawn;
            let ghost before = *self;
            self.invoke(event.take());
            proof {
                let s1 = ps.take(i + 1);
                assert(s1.drop_last() =~= ps.take(i as int));
                assert(s1.last() == all[i as int].payload());
                assert(before.carried_out(&*self, s1.last()));
                assert(start.ran(s1, &*self));
            }
            proof {
                let q2 = self.evs().queue();
                assert forall|j: int| 0 <= j < q2.len() implies (#[trigger] q2[j]).payload() is SetParent by {
                    if q2 != q1 && j < q1.len() {
                        assert(q2.drop_last()[j] == q2[j]);
                        assert(q1[j] == q2[j]);
                    }
                }
            }
            i = i + 1;
        }
        proof {
            assert(ps.take(n as int) =~= ps);
            assert(start.ran(Self::payloads(old(self).evs().queue()), &*self));
        }
    }

    /// Carries out every queued request, and then the requests to set
    /// parents that spawning queued, leaving the queue empty.
    pub fn flush(&mut self)
        requires
            old(self).wf(),
        ensures
            final(self).wf(),
            final(self).evs().meta_map() == old(self).evs().meta_map(),
            final(self).evs().queue().len() == 0,
            exists|mid: Self| old(self).round(&mid) && #[trigger] mid.round(&*final(self)),
    {
        self.flush_round();
        let ghost mid = *self;
        self.flush_round();
        assert(old(self).round(&mid) && mid.round(&*self));
    }
}

impl<T> World<T> {
    /// Puts `resource` as the shared resource of the kind `ty`.
    pub fn add_resource(&mut self, ty: ResourceType, resource: T) -> (r: &mut Self)
        requires
            old(self).wf(),
        ensures
            *final(self) == *final(r),
            r.wf(),
            old(self).res().added(&r.res(), ty, resource),
            r.ents() == old(self).ents(),
            r.archs() == old(self).archs(),
            r.evs() == old(self).evs(),
    {
        self.resources.add(ty, resource);
        self
    }

    /// Puts `resource` as the local resource of the kind `ty`.
    pub fn add_local_resource(&mut self, ty: ResourceType, resource: T) -> (r: &mut Self)
        requires
            old(self).wf(),
        ensures
            *final(self) == *final(r),
            r.wf(),
            old(self).local_res().added(&r.local_res(), ty, resource),
            r.ents() == old(self).ents(),
            r.archs() == old(self).archs(),
            r.evs() == old(self).evs(),
    {
        self.local_resources.register(ty, resource);
        self
    }

    /// Makes the kind of event `ty` known with the priority `priority`.
    pub fn register_event(&mut self, ty: u64, priority: i32) -> (r: &mut Self)
        requires
            old(self).wf(),
        ensures
            *final(self) == *final(r),
            r.wf(),
            r.evs().registered(ty),
            r.evs().queue() == old(self).evs().queue(),
            r.ents() == old(self).ents(),
            r.archs() == old(self).archs(),
    {
        let outputs: EventOutputs<Entity> = self.events.register(ty, priority);
        self
    }

    pub fn resource(&self, ty: ResourceType) -> (r: &T)
        requires
            self.wf(),
            self.res().holds(ty),
        ensures
            *r == self.res().value_of(ty),
    {
        self.resources.get(ty)
    }

    pub fn resource_mut(&mut self, ty: ResourceType) -> (r: &mut T)
        requires
            old(self).wf(),
            old(self).res().holds(ty),
        ensures
            *r == old(self).res().value_of(ty),
            final(self).wf(),
            old(self).res().updated(&final(self).res(), ty, *final(r)),
            final(self).local_res() == old(self).local_res(),
            final(self).ents() == old(self).ents(),
            final(self).archs() == old(self).archs(),
            final(self).evs() == old(self).evs(),
    {
        self.resources.get_mut(ty)
    }

    pub fn local_resource(&self, ty: ResourceType) -> (r: &T)
        requires
            self.wf(),
            self.local_res().holds(ty),
        ensures
            *r == self.local_res().value_of(ty),
    {
        self.local_resources.get(ty)
    }

    pub fn local_resource_mut(&mut self, ty: ResourceType) -> (r: &mut T)
        requires
            old(self).wf(),
            old(self).local_res().holds(ty),
        ensures
            *r == old(self).local_res().value_of(ty),
            final(self).wf(),
            old(self).local_res().updated(&final(self).local_res(), ty, *final(r)),
            final(self).res() == old(self).res(),
            final(self).ents() == old(self).ents(),
            final(self).archs() == old(self).archs(),
            final(self).evs() == old(self).evs(),
    {
        self.local_resources.get_mut(ty)
    }

    pub fn try_resource(&self, ty: ResourceType) -> (r: Option<&T>)
        requires
            self.wf(),
        ensures
            self.res().holds(ty) ==> r == Some(&self.res().value_of(ty)),
            !self.res().holds(ty) ==> r is None,
    {
        self.resources.try_get(ty)
    }

    pub fn try_resource_mut(&mut self, ty: ResourceType) -> (r: Option<&mut T>)
        requires
            old(self).wf(),
        ensures
            old(self).res().holds(ty) <==> r is Some,
            r is Some ==> *r->0 == old(self).res().value_of(ty),
            final(self).wf(),
            r matches Some(v) ==> old(self).res().updated(&final(self).res(), ty, *final(v)),
            r is None ==> final(self).res() == old(self).res(),
            final(self).local_res() == old(self).local_res(),
            final(self).ents() == old(self).ents(),
            final(self).archs() == old(self).archs(),
            final(self).evs() == old(self).evs(),
    {
        self.resources.try_get_mut(ty)
    }

    pub fn try_local_resource(&self, ty: ResourceType) -> (r: Option<&T>)
        requires
            self.wf(),
        ensures
            self.local_res().holds(ty) ==> r == Some(&self.local_res().value_of(ty)),
            !self.local_res().holds(ty) ==> r is None,
    {
        self.local_resources.try_get(ty)
    }

    pub fn try_local_resource_mut(&mut self, ty: ResourceType) -> (r: Option<&mut T>)
        requires
            old(self).wf(),
        ensures
            old(self).local_res().holds(ty) <==> r is Some,
            r is Some ==> *r->0 == old(self).local_res().value_of(ty),
            final(self).wf(),
            r matches Some(v) ==> old(self).local_res().updated(&final(self).local_res(), ty, *final(v)),
            r is None ==> final(self).local_res() == old(self).local_res(),
            final(self).res() == old(self).res(),
            final(self).ents() == old(self).ents(),
            final(self).archs() == old(self).archs(),
            final(self).evs() == old(self).evs(),
    {
        self.local_resources.try_get_mut(ty)
    }
}

} // verus!
