use crate::ids::{type_id_key, type_key};
use std::any::TypeId;
use crate::key::Key;
use crate::storage::dense::DenseMap;
use vstd::prelude::*;

verus! {

/// A number that identifies a resource.
#[derive(Debug, Clone, Copy, PartialEq, Eq, Structural, PartialOrd, Ord, Hash)]
pub struct ResourceId(pub u32);

impl ResourceId {
    pub fn new(id: u32) -> (r: Self)
        ensures
            r.0 == id,
    {
        ResourceId(id)
    }
}

/// Identifies a kind of resource: a digest of its type.
#[derive(Debug, Clone, Copy, PartialEq, Eq, Structural, PartialOrd, Ord, Hash)]
pub struct ResourceType(pub u64);

impl Key for ResourceType {
    open spec fn spec_key(&self) -> u64 {
        self.0
    }

    fn key(&self) -> (r: u64) {
        self.0
    }

    proof fn lemma_key_injective(a: Self, b: Self) {
    }
}

impl ResourceType {
    /// The kind of the resources of the type `R`.
    pub fn new<R: 'static>() -> (r: Self) {
        ResourceType(type_key::<R>())
    }

    /// The kind of the resources whose type has the id `type_id`.
    pub fn dynamic(type_id: TypeId) -> (r: Self) {
        ResourceType(type_id_key(&type_id))
    }

    pub fn raw(type_id: u64) -> (r: Self)
        ensures
            r.0 == type_id,
    {
        ResourceType(type_id)
    }

    /// This is the kind of the resources of the type `R`.
    pub fn is<R: 'static>(&self) -> (r: bool) {
        self.0 == ResourceType::new::<R>().0
    }
}

/// One resource value.
pub struct ResourceData<V> {
    data: V,
}

impl<V> View for ResourceData<V> {
    type V = V;

    closed spec fn view(&self) -> V {
        self.data
    }
}

impl<V> ResourceData<V> {
    pub fn new(resource: V) -> (r: Self)
        ensures
            r@ == resource,
    {
        ResourceData { data: resource }
    }

    pub fn get(&self) -> (r: &V)
        ensures
            *r == self@,
    {
        &self.data
    }

    pub fn get_mut(&mut self) -> (r: &mut V)
        ensures
            *r == old(self)@,
            final(self)@ == *final(r),
    {
        &mut self.data
    }
}

/// Resource values, one per kind.
pub struct BaseResouces<V> {
    resources: DenseMap<ResourceType, ResourceData<V>>,
}

impl<V> BaseResouces<V> {
    pub closed spec fn res_map(&self) -> DenseMap<ResourceType, ResourceData<V>> {
        self.resources
    }

    pub open spec fn wf(&self) -> bool {
        &&& self.res_map().wf()
        &&& self.res_map().is_proper()
    }

    /// There is a value of the kind `ty`.
    pub open spec fn holds(&self, ty: ResourceType) -> bool {
        self.res_map().has(ty)
    }

    /// The value of the kind `ty`.
    pub open spec fn value_of(&self, ty: ResourceType) -> V {
        self.res_map().lookup(ty)@
    }

    /// `new` holds what `self` holds, with `resource` for the kind `ty`.
    pub open spec fn added(&self, new: &Self, ty: ResourceType, resource: V) -> bool {
        &&& new.holds(ty)
        &&& new.value_of(ty) == resource
        &&& forall|t: ResourceType|
            t != ty ==> #[trigger] new.holds(t) == self.holds(t) && (self.holds(t) ==> new.value_of(t)
                == self.value_of(t))
    }

    /// `new` holds the kinds that `self` holds, with `value` for the kind
    /// `ty` and the same value for every other kind.
    pub open spec fn updated(&self, new: &Self, ty: ResourceType, value: V) -> bool {
        &&& forall|t: ResourceType| #[trigger] new.holds(t) == self.holds(t)
        &&& new.value_of(ty) == value
        &&& forall|t: ResourceType|
            t != ty && #[trigger] self.holds(t) ==> new.value_of(t) == self.value_of(t)
    }

    pub fn new() -> (r: Self)
        ensures
            r.wf(),
            forall|t: ResourceType| !#[trigger] r.holds(t),
    {
        BaseResouces { resources: DenseMap::new() }
    }

    /// Puts `resource` as the value of the kind `ty`, in place of any value
    /// there.
    pub fn add(&mut self, ty: ResourceType, resource: V)
        requires
            old(self).wf(),
        ensures
            final(self).wf(),
            old(self).added(&*final(self), ty, resource),
    {
        let ghost before = self.resources;
        let data = ResourceData::new(resource);
        let ghost d0 = data;
        let replaced = self.resources.insert(ty, data);
        proof {
            before.lemma_wf();
            if before.has(ty) {
                let k = before.slot(ty);
                assert(before.key_seq()[k].spec_key() == ty.spec_key());
                assert(before.key_seq().update(k, ty) =~= before.key_seq());
                before.lemma_update_lookup(&self.resources, ty, d0);
            } else {
                before.lemma_insert_lookup(&self.resources, ty, d0);
            }
            assert forall|t: ResourceType| t != ty implies #[trigger] self.holds(t) == old(self).holds(t)
                && (old(self).holds(t) ==> self.value_of(t) == old(self).value_of(t)) by {
                assert(t.spec_key() != ty.spec_key());
            }
        }
    }

    /// The value of the kind `ty`.
    pub fn cast(&self, ty: ResourceType) -> (r: &V)
        requires
            self.wf(),
            self.holds(ty),
        ensures
            *r == self.value_of(ty),
    {
        self.resources.get(&ty).unwrap().get()
    }

    /// The value of the kind `ty`, to change in place.
    pub fn cast_mut(&mut self, ty: ResourceType) -> (r: &mut V)
        requires
            old(self).wf(),
            old(self).holds(ty),
        ensures
            *r == old(self).value_of(ty),
            final(self).wf(),
            old(self).updated(&*final(self), ty, *final(r)),
    {
        let i = self.slot_of(ty);
        let data = self.resources.value_at_mut(i);
        data.get_mut()
    }

    /// The position of the kind `ty`, which is held.
    fn slot_of(&self, ty: ResourceType) -> (i: usize)
        requires
            self.wf(),
            self.holds(ty),
        ensures
            i == self.res_map().slot(ty),
            i < self.res_map().value_seq().len(),
            forall|t: ResourceType|
                t != ty && #[trigger] self.holds(t) ==> self.res_map().slot(t) != i && 0
                    <= self.res_map().slot(t) < self.res_map().value_seq().len(),
    {
        proof {
            self.resources.lemma_wf();
            assert forall|t: ResourceType| t != ty && #[trigger] self.holds(t) implies self.res_map().slot(t)
                != self.res_map().slot(ty) by {
                assert(self.res_map().key_seq()[self.res_map().slot(t)].spec_key() == t.spec_key());
                assert(self.res_map().key_seq()[self.res_map().slot(ty)].spec_key() == ty.spec_key());
            }
        }
        self.resources.index_of_key(&ty).unwrap()
    }

    /// The value of the kind `ty`, where there is one.
    pub fn try_get(&self, ty: ResourceType) -> (r: Option<&V>)
        requires
            self.wf(),
        ensures
            self.holds(ty) ==> r == Some(&self.value_of(ty)),
            !self.holds(ty) ==> r is None,
    {
        match self.resources.get(&ty) {
            Some(data) => Some(data.get()),
            None => None,
        }
    }

    /// The value of the kind `ty`, to change in place, where there is one.
    pub fn try_get_mut(&mut self, ty: ResourceType) -> (r: Option<&mut V>)
        requires
            old(self).wf(),
        ensures
            old(self).holds(ty) <==> r is Some,
            r is Some ==> *r->0 == old(self).value_of(ty),
            final(self).wf(),
            r matches Some(v) ==> old(self).updated(&*final(self), ty, *final(v)),
            r is None ==> *final(self) == *old(self),
    {
        if self.resources.contains(&ty) {
            Some(self.cast_mut(ty))
        } else {
            None
        }
    }
}

/// The resources shared by the systems of a world.
pub struct Resources<V>(pub BaseResouces<V>);

impl<V> Resources<V> {
    pub fn new() -> (r: Self)
        ensures
            r.0.wf(),
            forall|t: ResourceType| !#[trigger] r.0.holds(t),
    {
        Resources(BaseResouces::new())
    }

    /// Puts `resource` as the value of the kind `ty`.
    pub fn add(&mut self, ty: ResourceType, resource: V) -> (r: &mut Self)
        requires
            old(self).0.wf(),
        ensures
            *final(self) == *final(r),
            r.0.wf(),
            old(self).0.added(&r.0, ty, resource),
    {
        self.0.add(ty, resource);
        self
    }

    pub fn get(&self, ty: ResourceType) -> (r: &V)
        requires
            self.0.wf(),
            self.0.holds(ty),
        ensures
            *r == self.0.value_of(ty),
    {
        self.0.cast(ty)
    }

    pub fn get_mut(&mut self, ty: ResourceType) -> (r: &mut V)
        requires
            old(self).0.wf(),
            old(self).0.holds(ty),
        ensures
            *r == old(self).0.value_of(ty),
            final(self).0.wf(),
            old(self).0.updated(&final(self).0, ty, *final(r)),
    {
        self.0.cast_mut(ty)
    }

    pub fn try_get(&self, ty: ResourceType) -> (r: Option<&V>)
        requires
            self.0.wf(),
        ensures
            self.0.holds(ty) ==> r == Some(&self.0.value_of(ty)),
            !self.0.holds(ty) ==> r is None,
    {
        self.0.try_get(ty)
    }

    pub fn try_get_mut(&mut self, ty: ResourceType) -> (r: Option<&mut V>)
        requires
            old(self).0.wf(),
        ensures
            old(self).0.holds(ty) <==> r is Some,
            r is Some ==> *r->0 == old(self).0.value_of(ty),
            final(self).0.wf(),
            r matches Some(v) ==> old(self).0.updated(&final(self).0, ty, *final(v)),
            r is None ==> final(self).0 == old(self).0,
    {
        self.0.try_get_mut(ty)
    }
}

/// The resources kept by one system.
pub struct LocalResources<V>(pub BaseResouces<V>);

impl<V> LocalResources<V> {
    pub fn new() -> (r: Self)
        ensures
            r.0.wf(),
            forall|t: ResourceType| !#[trigger] r.0.holds(t),
    {
        LocalResources(BaseResouces::new())
    }

    /// Puts `resource` as the value of the kind `ty`.
    pub fn register(&mut self, ty: ResourceType, resource: V)
        requires
            old(self).0.wf(),
        ensures
            final(self).0.wf(),
            old(self).0.added(&final(self).0, ty, resource),
    {
        self.0.add(ty, resource);
    }

    pub fn get(&self, ty: ResourceType) -> (r: &V)
        requires
            self.0.wf(),
            self.0.holds(ty),
        ensures
            *r == self.0.value_of(ty),
    {
        self.0.cast(ty)
    }

    pub fn get_mut(&mut self, ty: ResourceType) -> (r: &mut V)
        requires
            old(self).0.wf(),
            old(self).0.holds(ty),
        ensures
            *r == old(self).0.value_of(ty),
            final(self).0.wf(),
            old(self).0.updated(&final(self).0, ty, *final(r)),
    {
        self.0.cast_mut(ty)
    }

    pub fn try_get(&self, ty: ResourceType) -> (r: Option<&V>)
        requires
            self.0.wf(),
        ensures
            self.0.holds(ty) ==> r == Some(&self.0.value_of(ty)),
            !self.0.holds(ty) ==> r is None,
    {
        self.0.try_get(ty)
    }

    pub fn try_get_mut(&mut self, ty: ResourceType) -> (r: Option<&mut V>)
        requires
            old(self).0.wf(),
        ensures
            old(self).0.holds(ty) <==> r is Some,
            r is Some ==> *r->0 == old(self).0.value_of(ty),
            final(self).0.wf(),
            r matches Some(v) ==> old(self).0.updated(&final(self).0, ty, *final(v)),
            r is None ==> final(self).0 == old(self).0,
    {
        self.0.try_get_mut(ty)
    }
}

} // verus!
