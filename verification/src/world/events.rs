use crate::entity::Entity;
use crate::event::EventOutputs;
use crate::ids::ComponentId;
use crate::storage::dense::DenseSet;
use crate::storage::table::{ColumnCell, Row};
use vstd::prelude::*;

verus! {

/// The priority of spawning.
pub const SPAWN_PRIORITY: i32 = 2147482647;

/// The priority of despawning.
pub const DESPAWN_PRIORITY: i32 = -2147482648;

/// The priority of setting a parent, and of adding one component.
pub const SET_PARENT_PRIORITY: i32 = 2147481647;

/// The priority of adding children, and of removing one component.
pub const ADD_CHILDREN_PRIORITY: i32 = 2147480647;

/// The priority of removing children.
pub const REMOVE_CHILDREN_PRIORITY: i32 = 2147479647;

/// A request for a new entity, with a parent and values.
pub struct Spawn<T> {
    pub parent: Option<Entity>,
    pub components: Row<T>,
}

impl<T> Spawn<T> {
    pub fn new() -> (r: Self)
        ensures
            r.parent is None,
            r.components.wf(),
            r.components.keys_seq() == Seq::<crate::ids::ColumnKey>::empty(),
    {
        Spawn { parent: None, components: Row::new() }
    }

    pub fn set_parent(self, parent: Entity) -> (r: Self)
        ensures
            r.parent == Some(parent),
            r.components == self.components,
    {
        Spawn { parent: Some(parent), components: self.components }
    }

    /// Adds `component` under the column of `id`.
    pub fn with(self, id: ComponentId, component: T) -> (r: Self)
        requires
            self.components.wf(),
        ensures
            r.parent == self.parent,
            r.components.wf(),
            exists|cell: ColumnCell<T>, old_cell: Option<ColumnCell<T>>|
                cell@ == component && self.components.entries().inserted(
                    &r.components.entries(),
                    id.column_spec(),
                    cell,
                    old_cell,
                ),
    {
        let mut components = self.components;
        let cell = ColumnCell::from(component);
        let ghost c0 = cell;
        let replaced = components.add_cell(id.column(), cell);
        assert(self.components.entries().inserted(&components.entries(), id.column_spec(), c0, replaced));
        Spawn { parent: self.parent, components }
    }
}

/// A request to despawn an entity and its descendants.
pub struct Despawn {
    pub entity: Entity,
}

impl Despawn {
    pub fn new(entity: Entity) -> (r: Self)
        ensures
            r.entity == entity,
    {
        Despawn { entity }
    }
}

/// A change of parent: the entity, its new parent, its parent before.
pub struct ParentUpdate {
    entity: Entity,
    parent: Option<Entity>,
    old_parent: Option<Entity>,
}

impl ParentUpdate {
    pub closed spec fn spec_entity(&self) -> Entity {
        self.entity
    }

    pub closed spec fn spec_parent(&self) -> Option<Entity> {
        self.parent
    }

    pub closed spec fn spec_old_parent(&self) -> Option<Entity> {
        self.old_parent
    }

    pub(crate) fn new(entity: Entity, parent: Option<Entity>, old_parent: Option<Entity>) -> (r: Self)
        ensures
            r.spec_entity() == entity,
            r.spec_parent() == parent,
            r.spec_old_parent() == old_parent,
    {
        ParentUpdate { entity, parent, old_parent }
    }

    pub fn entity(&self) -> (r: Entity)
        ensures
            r == self.spec_entity(),
    {
        self.entity
    }

    pub fn parent(&self) -> (r: Option<Entity>)
        ensures
            r == self.spec_parent(),
    {
        self.parent
    }

    pub fn old_parent(&self) -> (r: Option<Entity>)
        ensures
            r == self.spec_old_parent(),
    {
        self.old_parent
    }
}

/// A request to set the parent of an entity.
pub struct SetParent {
    pub entity: Entity,
    pub parent: Option<Entity>,
}

impl SetParent {
    pub fn new(entity: Entity, parent: Option<Entity>) -> (r: Self)
        ensures
            r.entity == entity,
            r.parent == parent,
    {
        SetParent { entity, parent }
    }

    /// A request to leave `entity` without a parent.
    pub fn none(entity: Entity) -> (r: Self)
        ensures
            r.entity == entity,
            r.parent is None,
    {
        SetParent { entity, parent: None }
    }
}

/// A request to make `parent` the parent of each of `children`.
pub struct AddChildren {
    pub parent: Entity,
    pub children: Vec<Entity>,
}

impl AddChildren {
    pub fn new(parent: Entity, children: Vec<Entity>) -> (r: Self)
        ensures
            r.parent == parent,
            r.children@ == children@,
    {
        AddChildren { parent, children }
    }
}

/// A request to leave each of `children` without a parent.
pub struct RemoveChildren {
    pub parent: Entity,
    pub children: Vec<Entity>,
}

impl RemoveChildren {
    pub fn new(parent: Entity, children: Vec<Entity>) -> (r: Self)
        ensures
            r.parent == parent,
            r.children@ == children@,
    {
        RemoveChildren { parent, children }
    }

    pub fn parent(&self) -> (r: Entity)
        ensures
            r == self.parent,
    {
        self.parent
    }

    pub fn children(&self) -> (r: &[Entity])
        ensures
            r@ == self.children@,
    {
        self.children.as_slice()
    }
}

/// A request to add one component to an entity.
pub struct AddComponent<T> {
    pub entity: Entity,
    pub id: ComponentId,
    pub component: Option<T>,
}

impl<T> AddComponent<T> {
    pub fn new(entity: Entity, id: ComponentId, component: T) -> (r: Self)
        ensures
            r.entity == entity,
            r.id == id,
            r.component == Some(component),
    {
        AddComponent { entity, id, component: Some(component) }
    }
}

/// A request to add several components to an entity.
pub struct AddComponents<T> {
    pub entity: Entity,
    pub components: Row<T>,
}

impl<T> AddComponents<T> {
    pub fn new(entity: Entity) -> (r: Self)
        ensures
            r.entity == entity,
            r.components.wf(),
            r.components.keys_seq() == Seq::<crate::ids::ColumnKey>::empty(),
    {
        AddComponents { entity, components: Row::new() }
    }

    /// Adds `component` under the column of `id`.
    pub fn with(self, id: ComponentId, component: T) -> (r: Self)
        requires
            self.components.wf(),
        ensures
            r.entity == self.entity,
            r.components.wf(),
            exists|cell: ColumnCell<T>, old_cell: Option<ColumnCell<T>>|
                cell@ == component && self.components.entries().inserted(
                    &r.components.entries(),
                    id.column_spec(),
                    cell,
                    old_cell,
                ),
    {
        let mut components = self.components;
        let cell = ColumnCell::from(component);
        let ghost c0 = cell;
        let replaced = components.add_cell(id.column(), cell);
        assert(self.components.entries().inserted(&components.entries(), id.column_spec(), c0, replaced));
        AddComponents { entity: self.entity, components }
    }
}

/// A component value taken from an entity.
pub struct RemovedComponent<T> {
    pub entity: Entity,
    pub component: T,
}

impl<T> RemovedComponent<T> {
    pub fn new(entity: Entity, component: T) -> (r: Self)
        ensures
            r.entity == entity,
            r.component == component,
    {
        RemovedComponent { entity, component }
    }
}

/// A request to take one component from an entity.
pub struct RemoveComponent {
    pub entity: Entity,
    pub id: ComponentId,
}

impl RemoveComponent {
    pub fn new(entity: Entity, id: ComponentId) -> (r: Self)
        ensures
            r.entity == entity,
            r.id == id,
    {
        RemoveComponent { entity, id }
    }
}

/// A request to take several components from an entity.
pub struct RemoveComponents {
    pub entity: Entity,
    pub components: DenseSet<ComponentId>,
}

impl RemoveComponents {
    pub fn new(entity: Entity) -> (r: Self)
        ensures
            r.entity == entity,
            r.components.key_seq() == Seq::<ComponentId>::empty(),
            r.components.is_proper(),
    {
        RemoveComponents { entity, components: DenseSet::new() }
    }

    /// Adds `id` to the components to take, where it is not listed yet.
    pub fn with(self, id: ComponentId) -> (r: Self)
        requires
            self.components.is_proper(),
        ensures
            r.entity == self.entity,
            r.components.is_proper(),
            r.components.key_seq() == (if self.components.key_seq().contains(id) {
                self.components.key_seq()
            } else {
                self.components.key_seq().push(id)
            }),
    {
        let mut components = self.components;
        proof {
            components.lemma_proper_listed(id);
        }
        components.insert_unique(id);
        RemoveComponents { entity: self.entity, components }
    }
}

/// The outputs kept for one kind of component: the entities it was added
/// to, and the values taken from entities.
pub struct ComponentEvents<T> {
    added: EventOutputs<Entity>,
    removed: EventOutputs<RemovedComponent<T>>,
}

impl<T> ComponentEvents<T> {
    pub closed spec fn added_seq(&self) -> Seq<Entity> {
        self.added@
    }

    pub closed spec fn removed_seq(&self) -> Seq<RemovedComponent<T>> {
        self.removed@
    }

    pub fn new() -> (r: Self)
        ensures
            r.added_seq() == Seq::<Entity>::empty(),
            r.removed_seq() == Seq::<RemovedComponent<T>>::empty(),
    {
        ComponentEvents { added: EventOutputs::new(), removed: EventOutputs::new() }
    }

    /// Records that the component was added to `entity`.
    pub fn add(&mut self, entity: &Entity)
        ensures
            final(self).added_seq() == old(self).added_seq().push(*entity),
            final(self).removed_seq() == old(self).removed_seq(),
    {
        self.added.add(*entity);
    }

    /// Records that the value of `cell` was taken from `entity`.
    pub fn remove(&mut self, entity: &Entity, cell: ColumnCell<T>)
        ensures
            final(self).added_seq() == old(self).added_seq(),
            final(self).removed_seq().len() == old(self).removed_seq().len() + 1,
            final(self).removed_seq().drop_last() == old(self).removed_seq(),
            final(self).removed_seq().last().entity == *entity,
            final(self).removed_seq().last().component == cell@,
    {
        let component = cell.take();
        self.removed.add(RemovedComponent::new(*entity, component));
        assert(self.removed@.drop_last() =~= old(self).removed@);
    }

    pub fn added(&self) -> (r: &[Entity])
        ensures
            r@ == self.added_seq(),
    {
        self.added.slice()
    }

    pub fn removed(&self) -> (r: &[RemovedComponent<T>])
        ensures
            r@ == self.removed_seq(),
    {
        self.removed.slice()
    }
}

} // verus!
