use crate::ids::type_key;
use crate::key::Key;
use vstd::prelude::*;

verus! {

/// Identifies a scene: a digest of the scene's type.
#[derive(Clone, Copy, PartialEq, Eq, Structural, PartialOrd, Ord, Hash, Debug)]
pub struct SceneId(pub u64);

impl Key for SceneId {
    open spec fn spec_key(&self) -> u64 {
        self.0
    }

    fn key(&self) -> (r: u64) {
        self.0
    }

    proof fn lemma_key_injective(a: Self, b: Self) {
    }
}

impl SceneId {
    /// The id of the scene `S`.
    pub fn new<S: 'static>() -> (r: Self) {
        SceneId(type_key::<S>())
    }
}

/// The scene being played and the one asked for next.
pub struct SceneTracker {
    pub current: Option<SceneId>,
    pub next: Option<SceneId>,
}

impl SceneTracker {
    pub fn new() -> (r: Self)
        ensures
            r.current is None,
            r.next is None,
    {
        SceneTracker { current: None, next: None }
    }

    /// Asks for the scene `S` next.
    pub fn set_next<S: 'static>(&mut self)
        ensures
            final(self).next is Some,
            final(self).current == old(self).current,
    {
        self.next = Some(SceneId::new::<S>());
    }

    pub fn next(&self) -> (r: Option<SceneId>)
        ensures
            r == self.next,
    {
        self.next
    }

    /// Makes the scene asked for the current one, and asks for none.
    pub fn swap(&mut self)
        ensures
            final(self).current == old(self).next,
            final(self).next is None,
    {
        self.current = self.next;
        self.next = None;
    }

    pub fn current(&self) -> (r: Option<SceneId>)
        ensures
            r == self.current,
    {
        self.current
    }
}

} // verus!
