use crate::key::Key;
use std::any::TypeId;
use std::collections::hash_map::DefaultHasher;
use std::hash::{Hash, Hasher};
use vstd::prelude::*;

verus! {

#[verifier::external_type_specification]
#[verifier::external_body]
pub struct ExTypeId(TypeId);

/// `TypeId::of::<T>()`. Nothing is stated of it: a type's id is fixed for
/// one build only.
#[verifier::external_body]
pub(crate) fn type_id_of<T: ?Sized + 'static>() -> TypeId {
    TypeId::of::<T>()
}

/// `id.hash(hasher)`: feeds the type id to the hasher. What it writes is
/// not stated: the bytes of a type id are not documented.
#[verifier::external_body]
fn feed_type_id(id: &TypeId, hasher: &mut DefaultHasher) {
    id.hash(hasher);
}

/// A number for a type: the standard hasher's digest of its type id.
pub(crate) fn type_id_key(id: &TypeId) -> u64 {
    let mut hasher = DefaultHasher::new();
    feed_type_id(id, &mut hasher);
    hasher.finish()
}

/// A number for the type `T`: the digest of its type id.
pub(crate) fn type_key<T: ?Sized + 'static>() -> u64 {
    type_id_key(&type_id_of::<T>())
}

/// Identifies a kind of component.
#[derive(Clone, Copy, Debug, PartialEq, Eq, Structural, Hash, PartialOrd, Ord)]
pub struct ComponentId(pub u64);

impl ComponentId {
    /// The id of the component type `C`.
    pub fn new<C: 'static>() -> (r: Self) {
        ComponentId(type_key::<C>())
    }

    pub fn raw(id: u64) -> (r: Self)
        ensures
            r.0 == id,
    {
        ComponentId(id)
    }
}

impl Key for ComponentId {
    open spec fn spec_key(&self) -> u64 {
        self.0
    }

    fn key(&self) -> (r: u64) {
        self.0
    }

    proof fn lemma_key_injective(a: Self, b: Self) {
    }
}

/// Identifies a column of a table or a field of a row.
#[derive(Clone, Copy, Debug, PartialEq, Eq, Structural, Hash, PartialOrd, Ord)]
pub struct ColumnKey(pub u64);

impl ColumnKey {
    /// The key of the type `K`.
    pub fn from<K: 'static>() -> (r: Self) {
        ColumnKey(type_key::<K>())
    }

    pub fn raw(id: u64) -> (r: Self)
        ensures
            r.0 == id,
    {
        ColumnKey(id)
    }

    /// The component id with the same number.
    pub fn component(&self) -> (r: ComponentId)
        ensures
            r.0 == self.0,
    {
        ComponentId(self.0)
    }
}

impl ComponentId {
    /// The column key with the same number.
    pub open spec fn column_spec(&self) -> ColumnKey {
        ColumnKey(self.0)
    }

    /// The column key with the same number.
    pub fn column(&self) -> (r: ColumnKey)
        ensures
            r.0 == self.0,
            r == self.column_spec(),
    {
        ColumnKey(self.0)
    }
}

impl Key for ColumnKey {
    open spec fn spec_key(&self) -> u64 {
        self.0
    }

    fn key(&self) -> (r: u64) {
        self.0
    }

    proof fn lemma_key_injective(a: Self, b: Self) {
    }
}

} // verus!
