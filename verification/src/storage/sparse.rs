use vstd::prelude::*;

verus! {

/// The number of filled slots among the first `n`.
pub open spec fn filled<V>(s: Seq<Option<V>>, n: int) -> nat
    decreases n,
{
    if n <= 0 {
        0
    } else {
        filled(s, n - 1) + if s[n - 1] is Some {
            1nat
        } else {
            0nat
        }
    }
}

/// The values of the filled slots among the first `n`, in order.
pub open spec fn filled_values<V>(s: Seq<Option<V>>, n: int) -> Seq<V>
    decreases n,
{
    if n <= 0 {
        Seq::empty()
    } else {
        match s[n - 1] {
            Some(v) => filled_values(s, n - 1).push(v),
            None => filled_values(s, n - 1),
        }
    }
}

proof fn lemma_filled_bound<V>(s: Seq<Option<V>>, n: int)
    requires
        0 <= n,
    ensures
        filled(s, n) <= n,
        filled_values(s, n).len() == filled(s, n),
    decreases n,
{
    if n > 0 {
        lemma_filled_bound(s, n - 1);
    }
}

/// Values held in numbered slots, any of which may be empty.
pub struct SparseArray<V> {
    values: Vec<Option<V>>,
}

impl<V> SparseArray<V> {
    /// The slots, in order.
    pub closed spec fn slots(&self) -> Seq<Option<V>> {
        self.values@
    }

    pub fn new() -> (r: Self)
        ensures
            r.slots() == Seq::<Option<V>>::empty(),
    {
        SparseArray { values: Vec::new() }
    }

    /// There is a slot at `index`, filled or not.
    pub fn contains(&self, index: usize) -> (r: bool)
        ensures
            r == (index < self.slots().len()),
    {
        index < self.values.len()
    }

    pub fn get(&self, index: usize) -> (r: Option<&V>)
        ensures
            index < self.slots().len() ==> r == match self.slots()[index as int] {
                Some(v) => Some(&v),
                None => None,
            },
            index >= self.slots().len() ==> r is None,
    {
        if index < self.values.len() {
            match &self.values[index] {
                Some(v) => Some(v),
                None => None,
            }
        } else {
            None
        }
    }

    pub fn get_mut(&mut self, index: usize) -> (r: Option<&mut V>)
        ensures
            r is Some <==> (index < old(self).slots().len() && old(self).slots()[index as int] is Some),
            match r {
                Some(v) => {
                    &&& old(self).slots()[index as int] == Some(*v)
                    &&& final(self).slots() == old(self).slots().update(index as int, Some(*final(v)))
                },
                None => final(self).slots() == old(self).slots(),
            },
    {
        if index < self.values.len() {
            match &mut self.values[index] {
                Some(v) => Some(v),
                None => None,
            }
        } else {
            None
        }
    }

    /// Fills the slot at `index`, adding empty slots up to it, and hands back
    /// what it held.
    pub fn insert(&mut self, index: usize, value: V) -> (r: Option<V>)
        requires
            index < usize::MAX,
        ensures
            index < old(self).slots().len() ==> {
                &&& r == old(self).slots()[index as int]
                &&& final(self).slots() == old(self).slots().update(index as int, Some(value))
            },
            index >= old(self).slots().len() ==> {
                &&& r is None
                &&& final(self).slots().len() == index + 1
                &&& final(self).slots().subrange(0, old(self).slots().len() as int) == old(self).slots()
                &&& forall|i: int|
                    old(self).slots().len() <= i < index ==> #[trigger] final(self).slots()[i] is None
                &&& final(self).slots()[index as int] == Some(value)
            },
    {
        if index >= self.values.len() {
            while self.values.len() < index + 1
                invariant
                    index < usize::MAX,
                    index >= old(self).values@.len(),
                    self.values@.len() <= index + 1,
                    old(self).values@.len() <= self.values@.len(),
                    self.values@.subrange(0, old(self).values@.len() as int) == old(self).values@,
                    forall|i: int|
                        old(self).values@.len() <= i < self.values@.len() ==> #[trigger] self.values@[i] is None,
                decreases index + 1 - self.values@.len(),
            {
                let ghost prev = self.values@;
                self.values.push(None);
                assert(self.values@.subrange(0, old(self).values@.len() as int) =~= prev.subrange(
                    0,
                    old(self).values@.len() as int,
                ));
            }
        }
        let mut slot = Some(value);
        std::mem::swap(&mut self.values[index], &mut slot);
        proof {
            if index >= old(self).values@.len() {
                assert(self.values@.subrange(0, old(self).values@.len() as int) =~= old(self).values@);
            }
        }
        slot
    }

    /// Empties the slot at `index` and hands back what it held.
    pub fn remove(&mut self, index: usize) -> (r: Option<V>)
        ensures
            index < old(self).slots().len() ==> {
                &&& r == old(self).slots()[index as int]
                &&& final(self).slots() == old(self).slots().update(index as int, None)
            },
            index >= old(self).slots().len() ==> r is None && final(self).slots() == old(self).slots(),
    {
        if index < self.values.len() {
            let mut slot = None;
            std::mem::swap(&mut self.values[index], &mut slot);
            slot
        } else {
            None
        }
    }

    /// The values of the filled slots, in order.
    pub fn iter(&self) -> (r: Vec<&V>)
        ensures
            r@.len() == filled_values(self.slots(), self.slots().len() as int).len(),
            forall|i: int|
                0 <= i < r@.len() ==> *#[trigger] r@[i] == filled_values(
                    self.slots(),
                    self.slots().len() as int,
                )[i],
    {
        let mut out: Vec<&V> = Vec::new();
        let mut i: usize = 0;
        while i < self.values.len()
            invariant
                i <= self.values@.len(),
                out@.len() == filled_values(self.values@, i as int).len(),
                forall|j: int|
                    0 <= j < out@.len() ==> *#[trigger] out@[j] == filled_values(
                        self.values@,
                        i as int,
                    )[j],
            decreases self.values@.len() - i,
        {
            match &self.values[i] {
                Some(v) => {
                    out.push(v);
                },
                None => {},
            }
            i = i + 1;
        }
        out
    }

    /// The number of filled slots.
    pub fn len(&self) -> (r: usize)
        ensures
            r == filled(self.slots(), self.slots().len() as int),
    {
        let mut count: usize = 0;
        let mut i: usize = 0;
        while i < self.values.len()
            invariant
                i <= self.values@.len(),
                count == filled(self.values@, i as int),
            decreases self.values@.len() - i,
        {
            proof {
                lemma_filled_bound(self.values@, i as int);
            }
            if self.values[i].is_some() {
                count = count + 1;
            }
            i = i + 1;
        }
        count
    }

    pub fn is_empty(&self) -> (r: bool)
        ensures
            r == (filled(self.slots(), self.slots().len() as int) == 0),
    {
        self.len() == 0
    }

    pub fn clear(&mut self)
        ensures
            final(self).slots() == Seq::<Option<V>>::empty(),
    {
        self.values.clear();
    }
}

} // verus!
