use vstd::prelude::*;

verus! {

/// A value that is identified by a 64-bit number: two keys are the same
/// exactly when their numbers are.
pub trait Key: Copy + Sized {
    /// The number that identifies this key.
    spec fn spec_key(&self) -> u64;

    fn key(&self) -> (r: u64)
        ensures
            r == self.spec_key(),
    ;

    proof fn lemma_key_injective(a: Self, b: Self)
        ensures
            a.spec_key() == b.spec_key() ==> a == b,
    ;
}

impl Key for u64 {
    open spec fn spec_key(&self) -> u64 {
        *self
    }

    fn key(&self) -> (r: u64) {
        *self
    }

    proof fn lemma_key_injective(a: Self, b: Self) {
    }
}

} // verus!
