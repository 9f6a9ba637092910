use crate::key::Key;
use crate::storage::ordered::{consistent, sort_with, sorted_with};
use std::collections::HashMap;
use vstd::prelude::*;

verus! {

broadcast use vstd::std_specs::hash::group_hash_axioms;

/// The index that records the position of every key of `ks` afresh.
pub open spec fn indexed_afresh<K: Key>(ks: Seq<K>) -> Map<u64, usize> {
    reindexed(Map::<u64, usize>::empty(), ks, 0, ks.len() as int)
}

/// The index after re-recording, in order, the position of every key of
/// `ks` in `[s, e)`: a later position of a key overwrites an earlier one.
pub open spec fn reindexed<K: Key>(m: Map<u64, usize>, ks: Seq<K>, s: int, e: int) -> Map<
    u64,
    usize,
>
    decreases e - s,
{
    if e <= s {
        m
    } else {
        reindexed(m, ks, s, e - 1).insert(ks[e - 1].spec_key(), (e - 1) as usize)
    }
}

/// Some key of `ks` in `[s, e)` has the number `h`.
pub open spec fn occurs<K: Key>(ks: Seq<K>, h: u64, s: int, e: int) -> bool {
    exists|i: int| s <= i < e && #[trigger] ks[i].spec_key() == h
}

/// Every entry of the index names a position of `ks` that holds a key with
/// that number.
pub open spec fn accurate<K: Key>(m: Map<u64, usize>, ks: Seq<K>) -> bool {
    forall|h: u64| #[trigger]
        m.contains_key(h) ==> (m[h] as int) < ks.len() && ks[m[h] as int].spec_key() == h
}

pub proof fn lemma_reindexed<K: Key>(m: Map<u64, usize>, ks: Seq<K>, s: int, e: int)
    requires
        0 <= s <= e <= ks.len(),
        e <= usize::MAX,
    ensures
        forall|h: u64| #[trigger]
            reindexed(m, ks, s, e).contains_key(h) <==> (m.contains_key(h) || occurs(ks, h, s, e)),
        forall|h: u64|
            #![trigger reindexed(m, ks, s, e)[h]]
            occurs(ks, h, s, e) ==> s <= reindexed(m, ks, s, e)[h] < e && ks[reindexed(
                m,
                ks,
                s,
                e,
            )[h] as int].spec_key() == h,
        forall|h: u64|
            #![trigger reindexed(m, ks, s, e)[h]]
            !occurs(ks, h, s, e) ==> reindexed(m, ks, s, e)[h] == m[h],
    decreases e - s,
{
    if e > s {
        lemma_reindexed(m, ks, s, e - 1);
        let r = reindexed(m, ks, s, e - 1);
        assert forall|h: u64| occurs(ks, h, s, e) <==> (occurs(ks, h, s, e - 1) || ks[e
            - 1].spec_key() == h) by {
            if occurs(ks, h, s, e) {
                let i = choose|i: int| s <= i < e && #[trigger] ks[i].spec_key() == h;
                if i < e - 1 {
                    assert(occurs(ks, h, s, e - 1));
                }
            }
            if ks[e - 1].spec_key() == h {
                assert(ks[e - 1].spec_key() == h);
            }
        }
    }
}

/// Re-recording the positions `[s, ks.len())` makes an index accurate again,
/// when each of its entries either still points below `s` at its key or
/// names a key found in that range.
pub proof fn lemma_reindexed_accurate<K: Key>(m: Map<u64, usize>, ks: Seq<K>, s: int)
    requires
        0 <= s <= ks.len() <= usize::MAX,
        forall|h: u64| #[trigger]
            m.contains_key(h) ==> ((m[h] as int) < s && ks[m[h] as int].spec_key() == h) || occurs(
                ks,
                h,
                s,
                ks.len() as int,
            ),
    ensures
        accurate(reindexed(m, ks, s, ks.len() as int), ks),
{
    lemma_reindexed(m, ks, s, ks.len() as int);
}

/// No two keys share a number.
pub open spec fn distinct_keys<K: Key>(ks: Seq<K>) -> bool {
    forall|i: int, j: int|
        0 <= i < j < ks.len() ==> #[trigger] ks[i].spec_key() != #[trigger] ks[j].spec_key()
}

/// The index records the key at position `j` of `ks` at that position.
pub open spec fn records_at<K: Key>(m: Map<u64, usize>, ks: Seq<K>, j: int) -> bool {
    m.contains_key(ks[j].spec_key()) && m[ks[j].spec_key()] == j
}

/// The index is accurate and records every key of `ks` at its own position:
/// no key occurs twice.
pub open spec fn proper<K: Key>(m: Map<u64, usize>, ks: Seq<K>) -> bool {
    &&& accurate(m, ks)
    &&& forall|i: int| 0 <= i < ks.len() ==> #[trigger] records_at(m, ks, i)
}

/// Re-recording `[s, ks.len())` over an index that records each key below
/// `s` at its position gives an index that records every key at its
/// position, when no two keys share a number.
pub proof fn lemma_reindexed_proper<K: Key>(m: Map<u64, usize>, ks: Seq<K>, s: int)
    requires
        0 <= s <= ks.len() <= usize::MAX,
        distinct_keys(ks),
        forall|j: int| 0 <= j < s ==> #[trigger] records_at(m, ks, j),
    ensures
        forall|j: int|
            0 <= j < ks.len() ==> #[trigger] records_at(reindexed(m, ks, s, ks.len() as int), ks, j),
{
    lemma_reindexed(m, ks, s, ks.len() as int);
    let r = reindexed(m, ks, s, ks.len() as int);
    assert forall|j: int| 0 <= j < ks.len() implies #[trigger] records_at(r, ks, j) by {
        let h = ks[j].spec_key();
        if j >= s {
            assert(occurs(ks, h, s, ks.len() as int));
            let p = r[h] as int;
            if p != j {
                if p < j {
                    assert(ks[p].spec_key() != ks[j].spec_key());
                } else {
                    assert(ks[j].spec_key() != ks[p].spec_key());
                }
            }
        } else {
            assert(records_at(m, ks, j));
            if occurs(ks, h, s, ks.len() as int) {
                let q = choose|q: int| s <= q < ks.len() && #[trigger] ks[q].spec_key() == h;
                assert(ks[j].spec_key() != ks[q].spec_key());
            }
        }
    }
}

/// A reordering of keys with distinct numbers has distinct numbers.
pub proof fn lemma_permutation_distinct<K: Key>(a: Seq<K>, b: Seq<K>)
    requires
        distinct_keys(a),
        a.to_multiset() == b.to_multiset(),
    ensures
        distinct_keys(b),
{
    assert(a.no_duplicates()) by {
        assert forall|i: int, j: int| 0 <= i < a.len() && 0 <= j < a.len() && i != j implies a[i]
            != a[j] by {
            if i < j {
                assert(a[i].spec_key() != a[j].spec_key());
            } else {
                assert(a[j].spec_key() != a[i].spec_key());
            }
        }
    }
    a.lemma_multiset_has_no_duplicates();
    b.lemma_multiset_has_no_duplicates_conv();
    assert forall|i: int, j: int| 0 <= i < j < b.len() implies #[trigger] b[i].spec_key()
        != #[trigger] b[j].spec_key() by {
        K::lemma_key_injective(b[i], b[j]);
    }
}

/// Keys in insertion order, each with a value, and an index from the number
/// of a key to the position recorded for it.
#[derive(Clone)]
pub struct DenseMap<K: Key, V> {
    values: Vec<V>,
    keys: Vec<K>,
    map: HashMap<u64, usize>,
}

impl<K: Key, V> DenseMap<K, V> {
    pub closed spec fn key_seq(&self) -> Seq<K> {
        self.keys@
    }

    pub closed spec fn value_seq(&self) -> Seq<V> {
        self.values@
    }

    pub closed spec fn index_map(&self) -> Map<u64, usize> {
        self.map@
    }

    /// Keys and values pair up one to one.
    pub closed spec fn wf(&self) -> bool {
        self.keys@.len() == self.values@.len()
    }

    /// Every entry of the index points at a position that holds its key.
    pub open spec fn is_accurate(&self) -> bool {
        accurate(self.index_map(), self.key_seq())
    }

    /// The index has an entry for `k`.
    pub open spec fn has(&self, k: K) -> bool {
        self.index_map().contains_key(k.spec_key())
    }

    /// The position that the index records for `k`.
    pub open spec fn slot(&self, k: K) -> int {
        self.index_map()[k.spec_key()] as int
    }

    /// The index is accurate and records every key at its own position: no
    /// key occurs twice.
    pub open spec fn is_proper(&self) -> bool {
        proper(self.index_map(), self.key_seq())
    }

    /// The value at the position recorded for `k`.
    pub open spec fn lookup(&self, k: K) -> V {
        self.value_seq()[self.slot(k)]
    }

    /// The same keys, values and index as `other`.
    pub open spec fn same_contents(&self, other: &Self) -> bool {
        &&& self.key_seq() == other.key_seq()
        &&& self.value_seq() == other.value_seq()
        &&& self.index_map() == other.index_map()
    }

    /// `self` holds an entry for `k` exactly when `other` does, with the same value.
    pub open spec fn same_entry(&self, other: &Self, k: K) -> bool {
        &&& self.has(k) == other.has(k)
        &&& other.has(k) ==> self.lookup(k) == other.lookup(k)
    }

    /// The index records the key at position `i` at that position.
    #[verifier::inline]
    pub open spec fn self_indexed(&self, i: int) -> bool {
        records_at(self.index_map(), self.key_seq(), i)
    }

    pub proof fn lemma_proper_distinct(&self)
        requires
            self.is_proper(),
        ensures
            distinct_keys(self.key_seq()),
    {
        assert forall|i: int, j: int|
            0 <= i < j < self.key_seq().len() implies #[trigger] self.key_seq()[i].spec_key()
            != #[trigger] self.key_seq()[j].spec_key() by {
            assert(self.self_indexed(i));
            assert(self.self_indexed(j));
        }
    }

    /// Where the index has an entry for `k`, it names a position in range.
    pub open spec fn in_range(&self, k: K) -> bool {
        self.has(k) ==> self.slot(k) < self.key_seq().len()
    }

    /// What `insert(key, value)` returns and leaves, from `self`.
    pub open spec fn inserted(&self, new: &Self, key: K, value: V, r: Option<V>) -> bool {
        &&& self.has(key) ==> {
            let i = self.slot(key);
            &&& r == Some(self.value_seq()[i])
            &&& new.key_seq() == self.key_seq().update(i, key)
            &&& new.value_seq() == self.value_seq().update(i, value)
            &&& new.index_map() == self.index_map()
        }
        &&& !self.has(key) ==> {
            &&& r == None::<V>
            &&& new.key_seq() == self.key_seq().push(key)
            &&& new.value_seq() == self.value_seq().push(value)
            &&& new.index_map() == self.index_map().insert(
                key.spec_key(),
                self.key_seq().len() as usize,
            )
        }
    }

    /// The value that `k` has after setting, in order, each key of `items`
    /// to its value: that of the last item with `k`'s number, else the one
    /// it has here.
    pub open spec fn value_after(&self, items: Seq<(K, V)>, k: K) -> V
        decreases items.len(),
    {
        if items.len() == 0 {
            self.lookup(k)
        } else if items.last().0.spec_key() == k.spec_key() {
            items.last().1
        } else {
            self.value_after(items.drop_last(), k)
        }
    }

    /// Changing the value at the position of `k` keeps the value of every
    /// other key.
    pub proof fn lemma_update_lookup(&self, new: &Self, k: K, v: V)
        requires
            self.wf(),
            self.is_accurate(),
            self.has(k),
            new.key_seq() == self.key_seq(),
            new.index_map() == self.index_map(),
            new.value_seq() == self.value_seq().update(self.slot(k), v),
        ensures
            new.lookup(k) == v,
            forall|k2: K|
                k2.spec_key() != k.spec_key() && #[trigger] self.has(k2) ==> new.lookup(k2)
                    == self.lookup(k2),
    {
        assert forall|k2: K| k2.spec_key() != k.spec_key() && #[trigger] self.has(k2) implies new.lookup(k2)
            == self.lookup(k2) by {
            assert(self.key_seq()[self.slot(k2)].spec_key() == k2.spec_key());
            assert(self.key_seq()[self.slot(k)].spec_key() == k.spec_key());
        }
    }

    /// Adding an entry for a new key keeps the entries of the others.
    pub proof fn lemma_insert_lookup(&self, new: &Self, k: K, v: V)
        requires
            self.wf(),
            self.is_accurate(),
            !self.has(k),
            new.key_seq() == self.key_seq().push(k),
            new.value_seq() == self.value_seq().push(v),
            new.index_map() == self.index_map().insert(k.spec_key(), self.key_seq().len() as usize),
        ensures
            new.has(k),
            new.lookup(k) == v,
            forall|k2: K|
                k2.spec_key() != k.spec_key() ==> #[trigger] new.has(k2) == self.has(k2) && (
                self.has(k2) ==> new.lookup(k2) == self.lookup(k2)),
    {
        self.lemma_wf();
    }

    /// For a proper map, `k` has an entry exactly when a key with its
    /// number is listed.
    pub proof fn lemma_has_iff_listed(&self, k: K)
        requires
            self.is_proper(),
        ensures
            self.has(k) <==> exists|i: int|
                0 <= i < self.key_seq().len() && #[trigger] self.key_seq()[i].spec_key()
                    == k.spec_key(),
    {
        if self.has(k) {
            let i = self.slot(k);
            assert(self.key_seq()[i].spec_key() == k.spec_key());
        }
        if exists|i: int|
            0 <= i < self.key_seq().len() && #[trigger] self.key_seq()[i].spec_key() == k.spec_key() {
            let i = choose|i: int|
                0 <= i < self.key_seq().len() && #[trigger] self.key_seq()[i].spec_key()
                    == k.spec_key();
            assert(self.self_indexed(i));
        }
    }

    /// Reading a key back after setting it gives the value that was set,
    /// and every key with another number keeps its entry.
    pub proof fn law_get_after_insert(&self, new: &Self, key: K, value: V, r: Option<V>)
        requires
            self.wf(),
            self.is_accurate(),
            self.inserted(new, key, value, r),
        ensures
            new.has(key),
            new.lookup(key) == value,
            forall|k: K| k.spec_key() != key.spec_key() ==> #[trigger] new.same_entry(self, k),
    {
        self.lemma_wf();
        if self.has(key) {
            let i = self.slot(key);
            K::lemma_key_injective(self.key_seq()[i], key);
            assert(self.key_seq().update(i, key) =~= self.key_seq());
            self.lemma_update_lookup(new, key, value);
        } else {
            self.lemma_insert_lookup(new, key, value);
        }
    }

    pub proof fn lemma_wf(&self)
        requires
            self.wf(),
        ensures
            self.key_seq().len() == self.value_seq().len(),
            self.key_seq().len() <= usize::MAX,
    {
        assert(self.keys.len() == self.keys@.len());
    }

    pub fn new() -> (r: Self)
        ensures
            r.wf(),
            r.key_seq() == Seq::<K>::empty(),
            r.value_seq() == Seq::<V>::empty(),
            r.index_map() == Map::<u64, usize>::empty(),
            r.is_proper(),
    {
        DenseMap { values: Vec::new(), keys: Vec::new(), map: HashMap::new() }
    }

    pub(crate) fn index_of_key(&self, key: &K) -> (r: Option<usize>)
        ensures
            r == (if self.has(*key) {
                Some(self.index_map()[key.spec_key()])
            } else {
                None::<usize>
            }),
    {
        let h = key.key();
        match self.map.get(&h) {
            Some(i) => Some(*i),
            None => None,
        }
    }

    /// Records `i` as the position of each key in `[start, len)`, in order.
    fn reindex_from(&mut self, start: usize)
        requires
            start <= old(self).keys@.len(),
        ensures
            final(self).keys@ == old(self).keys@,
            final(self).values@ == old(self).values@,
            final(self).map@ == reindexed(
                old(self).map@,
                old(self).keys@,
                start as int,
                old(self).keys@.len() as int,
            ),
    {
        let len = self.keys.len();
        let mut i = start;
        while i < len
            invariant
                start <= i <= len,
                len == self.keys@.len(),
                self.keys@ == old(self).keys@,
                self.values@ == old(self).values@,
                self.map@ == reindexed(old(self).map@, old(self).keys@, start as int, i as int),
            decreases len - i,
        {
            let h = self.keys[i].key();
            self.map.insert(h, i);
            i = i + 1;
        }
    }

    /// Sets the value of `key`: in place at the position that the index
    /// records for it, else at the end.
    pub fn insert(&mut self, key: K, value: V) -> (r: Option<V>)
        requires
            old(self).wf(),
            old(self).in_range(key),
        ensures
            final(self).wf(),
            old(self).inserted(&*final(self), key, value, r),
            old(self).is_accurate() ==> final(self).is_accurate(),
            old(self).is_proper() ==> final(self).is_proper(),
    {
        match self.index_of_key(&key) {
            Some(index) => {
                let mut old_value = value;
                std::mem::swap(&mut self.values[index], &mut old_value);
                self.keys.set(index, key);
                proof {
                    if old(self).is_accurate() {
                        K::lemma_key_injective(key, old(self).keys@[index as int]);
                        assert(self.keys@ =~= old(self).keys@);
                    }
                    if old(self).is_proper() {
                        assert forall|i: int| 0 <= i < self.key_seq().len() implies #[trigger] self.self_indexed(i) by {
                            assert(old(self).self_indexed(i));
                        }
                        assert(self.is_accurate());
                        assert(self.is_proper());
                    }
                }
                Some(old_value)
            },
            None => {
                let index = self.values.len();
                self.values.push(value);
                self.keys.push(key);
                self.map.insert(key.key(), index);
                proof {
                    if old(self).is_proper() {
                        assert forall|i: int| 0 <= i < self.key_seq().len() implies #[trigger] self.self_indexed(i) by {
                            if i < index {
                                assert(old(self).self_indexed(i));
                                assert(self.keys@[i] == old(self).keys@[i]);
                                if self.keys@[i].spec_key() == key.spec_key() {
                                    assert(old(self).has(key));
                                }
                            }
                        }
                        assert forall|h: u64| #[trigger] self.map@.contains_key(h) implies (
                        self.map@[h] as int) < self.keys@.len() && self.keys@[self.map@[h] as int].spec_key()
                            == h by {
                            if h != key.spec_key() {
                                assert(old(self).map@.contains_key(h));
                            }
                        }
                        assert(self.is_accurate());
                        assert(self.is_proper());
                    }
                }
                None
            },
        }
    }

    /// Puts `key` and `value` just before the position recorded for
    /// `before`, and records the positions of the keys that follow it; where
    /// `before` has no entry, the same as `insert`.
    pub fn insert_before(&mut self, key: K, value: V, before: &K) -> (r: Option<V>)
        requires
            old(self).wf(),
            old(self).in_range(*before),
            !old(self).has(*before) ==> old(self).in_range(key),
        ensures
            final(self).wf(),
            old(self).has(*before) ==> {
                let i = old(self).slot(*before);
                let ks = old(self).key_seq().insert(i, key);
                &&& r == None::<V>
                &&& final(self).key_seq() == ks
                &&& final(self).value_seq() == old(self).value_seq().insert(i, value)
                &&& final(self).index_map() == reindexed(old(self).index_map(), ks, i + 1, ks.len() as int)
            },
            !old(self).has(*before) ==> old(self).inserted(&*final(self), key, value, r),
            old(self).is_accurate() ==> final(self).is_accurate(),
    {
        match self.index_of_key(before) {
            Some(index) => {
                self.values.insert(index, value);
                self.keys.insert(index, key);
                assert(self.keys@.len() == self.keys.len());
                proof {
                    if old(self).is_accurate() {
                        let ks = self.keys@;
                        assert(ks.len() == self.keys.len());
                        assert forall|h: u64| #[trigger] self.map@.contains_key(h) implies ((
                        self.map@[h] as int) < index + 1 && ks[self.map@[h] as int].spec_key() == h)
                            || occurs(ks, h, index + 1, ks.len() as int) by {
                            let j = self.map@[h] as int;
                            if j >= index {
                                assert(ks[j + 1].spec_key() == h);
                            }
                        }
                        lemma_reindexed_accurate(self.map@, ks, index + 1);
                    }
                }
                self.reindex_from(index + 1);
                None
            },
            None => self.insert(key, value),
        }
    }

    /// Puts `key` and `value` just after the position recorded for `after`,
    /// and records the positions of the keys that follow; where `after` has
    /// no entry, the same as `insert`.
    pub fn insert_after(&mut self, key: K, value: V, after: &K) -> (r: Option<V>)
        requires
            old(self).wf(),
            old(self).in_range(*after),
            !old(self).has(*after) ==> old(self).in_range(key),
        ensures
            final(self).wf(),
            old(self).has(*after) ==> {
                let i = old(self).slot(*after) + 1;
                let ks = old(self).key_seq().insert(i, key);
                &&& r == None::<V>
                &&& final(self).key_seq() == ks
                &&& final(self).value_seq() == old(self).value_seq().insert(i, value)
                &&& final(self).index_map() == reindexed(old(self).index_map(), ks, i, ks.len() as int)
            },
            !old(self).has(*after) ==> old(self).inserted(&*final(self), key, value, r),
            old(self).is_accurate() ==> final(self).is_accurate(),
    {
        match self.index_of_key(after) {
            Some(index) => {
                assert(self.keys@.len() == self.keys.len());
                self.values.insert(index + 1, value);
                self.keys.insert(index + 1, key);
                proof {
                    if old(self).is_accurate() {
                        let ks = self.keys@;
                        assert(ks.len() == self.keys.len());
                        assert forall|h: u64| #[trigger] self.map@.contains_key(h) implies ((
                        self.map@[h] as int) < index + 1 && ks[self.map@[h] as int].spec_key() == h)
                            || occurs(ks, h, index + 1, ks.len() as int) by {
                            let j = self.map@[h] as int;
                            if j >= index + 1 {
                                assert(ks[j + 1].spec_key() == h);
                            }
                        }
                        lemma_reindexed_accurate(self.map@, ks, index + 1);
                    }
                }
                self.reindex_from(index + 1);
                None
            },
            None => self.insert(key, value),
        }
    }

    /// The value at the position recorded for `key`.
    /// Takes out the entry of `key` by moving the last entry into its
    /// place, drops the index's entry for `key`, and records the positions
    /// from that place on; the last entry may be taken too.
    pub fn swap_remove_reindexed(&mut self, key: &K) -> (r: Option<V>)
        requires
            old(self).wf(),
            old(self).in_range(*key),
        ensures
            final(self).wf(),
            !old(self).has(*key) ==> r == None::<V> && final(self).same_contents(&*old(self)),
            old(self).has(*key) ==> {
                let i = old(self).slot(*key);
                let ks = old(self).key_seq();
                let vs = old(self).value_seq();
                let rest = ks.update(i, ks.last()).drop_last();
                &&& r == Some(vs[i])
                &&& final(self).key_seq() == rest
                &&& final(self).value_seq() == vs.update(i, vs.last()).drop_last()
                &&& final(self).index_map() == reindexed(
                    old(self).index_map().remove(key.spec_key()),
                    rest,
                    i,
                    rest.len() as int,
                )
            },
    {
        let h = key.key();
        match self.map.remove(&h) {
            Some(index) => {
                let value = self.values.swap_remove(index);
                self.keys.swap_remove(index);
                self.reindex_from(index);
                Some(value)
            },
            None => {
                assert(self.map@ =~= old(self).map@);
                None
            },
        }
    }

    /// Puts `key` and `value` at position `index`, dropping the index's
    /// entry for `key` and recording the positions from the smaller of
    /// `index` and the position recorded before for `key`. A key already
    /// listed stays listed where it was too.
    pub fn insert_before_index(&mut self, index: usize, key: K, value: V)
        requires
            old(self).wf(),
            index <= old(self).key_seq().len(),
        ensures
            final(self).wf(),
            final(self).key_seq() == old(self).key_seq().insert(index as int, key),
            final(self).value_seq() == old(self).value_seq().insert(index as int, value),
            final(self).index_map() == reindexed(
                old(self).index_map().remove(key.spec_key()),
                final(self).key_seq(),
                if old(self).has(key) && old(self).slot(key) < index {
                    old(self).slot(key)
                } else {
                    index as int
                },
                final(self).key_seq().len() as int,
            ),
    {
        let h = key.key();
        let start = match self.map.remove(&h) {
            Some(old_index) => if old_index < index {
                old_index
            } else {
                index
            },
            None => index,
        };
        self.keys.insert(index, key);
        self.values.insert(index, value);
        self.reindex_from(start);
    }

    /// Puts `key` and `value` just after position `index`, dropping the
    /// index's entry for `key` and recording the positions from the smaller
    /// of that position and the one recorded before for `key`. A key
    /// already listed stays listed where it was too.
    pub fn insert_after_index(&mut self, index: usize, key: K, value: V)
        requires
            old(self).wf(),
            index < old(self).key_seq().len(),
        ensures
            final(self).wf(),
            final(self).key_seq() == old(self).key_seq().insert(index + 1, key),
            final(self).value_seq() == old(self).value_seq().insert(index + 1, value),
            final(self).index_map() == reindexed(
                old(self).index_map().remove(key.spec_key()),
                final(self).key_seq(),
                if old(self).has(key) && old(self).slot(key) < index + 1 {
                    old(self).slot(key)
                } else {
                    index + 1
                },
                final(self).key_seq().len() as int,
            ),
    {
        proof {
            self.lemma_wf();
        }
        let h = key.key();
        let at = index + 1;
        let start = match self.map.remove(&h) {
            Some(old_index) => if old_index < at {
                old_index
            } else {
                at
            },
            None => at,
        };
        self.keys.insert(at, key);
        self.values.insert(at, value);
        self.reindex_from(start);
    }

    /// Sets the value of `key` at the end: a listed key is taken out by
    /// moving the last entry into its place, the positions from there are
    /// recorded again, and the key comes back last with `value`; the index
    /// records for it the length the map had before.
    pub fn insert_moving(&mut self, key: K, value: V) -> (r: Option<V>)
        requires
            old(self).wf(),
            old(self).in_range(key),
        ensures
            final(self).wf(),
            !old(self).has(key) ==> {
                &&& r == None::<V>
                &&& final(self).key_seq() == old(self).key_seq().push(key)
                &&& final(self).value_seq() == old(self).value_seq().push(value)
                &&& final(self).index_map() == old(self).index_map().insert(
                    key.spec_key(),
                    old(self).key_seq().len() as usize,
                )
            },
            old(self).has(key) ==> {
                let i = old(self).slot(key);
                let ks = old(self).key_seq();
                let vs = old(self).value_seq();
                let rest = ks.update(i, ks.last()).drop_last();
                &&& r == Some(vs[i])
                &&& final(self).key_seq() == rest.push(ks[i])
                &&& final(self).value_seq() == vs.update(i, vs.last()).drop_last().push(value)
                &&& final(self).index_map() == reindexed(
                    old(self).index_map().insert(key.spec_key(), ks.len() as usize),
                    rest,
                    i,
                    rest.len() as int,
                )
            },
    {
        let h = key.key();
        let len = self.keys.len();
        match self.map.insert(h, len) {
            Some(old_index) => {
                let old_value = self.values.swap_remove(old_index);
                let k = self.keys.swap_remove(old_index);
                self.reindex_from(old_index);
                self.keys.push(k);
                self.values.push(value);
                Some(old_value)
            },
            None => {
                self.keys.push(key);
                self.values.push(value);
                None
            },
        }
    }

    pub fn get(&self, key: &K) -> (r: Option<&V>)
        requires
            self.wf(),
            self.in_range(*key),
        ensures
            self.has(*key) ==> r == Some(&self.value_seq()[self.slot(*key)]),
            !self.has(*key) ==> r == None::<&V>,
    {
        match self.index_of_key(key) {
            Some(index) => Some(&self.values[index]),
            None => None,
        }
    }

    /// The value at the position recorded for `key`, to change in place.
    pub fn get_mut(&mut self, key: &K) -> (r: Option<&mut V>)
        requires
            old(self).wf(),
            old(self).in_range(*key),
        ensures
            old(self).has(*key) ==> r is Some,
            !old(self).has(*key) ==> r is None,
            match r {
                Some(v) => {
                    let i = old(self).slot(*key);
                    &&& *v == old(self).value_seq()[i]
                    &&& final(self).value_seq() == old(self).value_seq().update(i, *final(v))
                    &&& final(self).key_seq() == old(self).key_seq()
                    &&& final(self).index_map() == old(self).index_map()
                    &&& final(self).wf()
                },
                None => *final(self) == *old(self),
            },
    {
        match self.index_of_key(key) {
            Some(index) => Some(&mut self.values[index]),
            None => None,
        }
    }

    /// Takes out the key and value at the position recorded for `key`, drops
    /// its entry, and records the positions of the keys that follow.
    pub fn remove(&mut self, key: &K) -> (r: Option<V>)
        requires
            old(self).wf(),
            old(self).in_range(*key),
        ensures
            final(self).wf(),
            old(self).has(*key) ==> {
                let i = old(self).slot(*key);
                let ks = old(self).key_seq().remove(i);
                &&& r == Some(old(self).value_seq()[i])
                &&& final(self).key_seq() == ks
                &&& final(self).value_seq() == old(self).value_seq().remove(i)
                &&& final(self).index_map() == reindexed(
                    old(self).index_map().remove(key.spec_key()),
                    ks,
                    i,
                    ks.len() as int,
                )
            },
            !old(self).has(*key) ==> {
                &&& r == None::<V>
                &&& final(self).key_seq() == old(self).key_seq()
                &&& final(self).value_seq() == old(self).value_seq()
                &&& final(self).index_map() == old(self).index_map()
            },
            old(self).is_accurate() ==> final(self).is_accurate(),
            old(self).is_proper() ==> final(self).is_proper(),
            old(self).is_proper() ==> forall|k: K|
                k.spec_key() != key.spec_key() ==> #[trigger] final(self).same_entry(old(self), k),
            old(self).is_proper() ==> !final(self).has(*key),
    {
        let h = key.key();
        match self.map.remove(&h) {
            Some(index) => {
                let value = self.values.remove(index);
                self.keys.remove(index);
                proof {
                    if old(self).is_accurate() {
                        let ks = self.keys@;
                        assert(ks.len() == self.keys.len());
                        assert forall|g: u64| #[trigger] self.map@.contains_key(g) implies ((
                        self.map@[g] as int) < index && ks[self.map@[g] as int].spec_key() == g)
                            || occurs(ks, g, index as int, ks.len() as int) by {
                            let j = self.map@[g] as int;
                            assert(old(self).map@.contains_key(g));
                            if j > index {
                                assert(ks[j - 1].spec_key() == g);
                            }
                        }
                        lemma_reindexed_accurate(self.map@, ks, index as int);
                    }
                    if old(self).is_proper() {
                        let ks = self.keys@;
                        old(self).lemma_proper_distinct();
                        assert forall|x: int, y: int|
                            0 <= x < y < ks.len() implies #[trigger] ks[x].spec_key()
                            != #[trigger] ks[y].spec_key() by {
                            let x0 = if x < index { x } else { x + 1 };
                            let y0 = if y < index { y } else { y + 1 };
                            assert(ks[x] == old(self).keys@[x0]);
                            assert(ks[y] == old(self).keys@[y0]);
                        }
                        assert forall|j: int| 0 <= j < index implies #[trigger] records_at(
                            self.map@,
                            ks,
                            j,
                        ) by {
                            assert(old(self).self_indexed(j));
                            assert(old(self).self_indexed(index as int));
                            assert(old(self).keys@[j].spec_key() != old(self).keys@[index as int].spec_key());
                        }
                        assert(ks.len() == self.keys.len());
                        lemma_reindexed_proper(self.map@, ks, index as int);
                    }
                }
                self.reindex_from(index);
                proof {
                    if old(self).is_proper() {
                        assert forall|j: int| 0 <= j < self.key_seq().len() implies #[trigger] self.self_indexed(
                            j,
                        ) by {
                            assert(records_at(self.map@, self.keys@, j));
                        }
                        assert(self.is_accurate());
                        assert(self.is_proper());
                        if self.has(*key) {
                            let j = self.slot(*key);
                            if j < index {
                                assert(old(self).keys@[j] == self.keys@[j]);
                                assert(old(self).self_indexed(j));
                            } else {
                                assert(old(self).keys@[j + 1] == self.keys@[j]);
                                assert(old(self).self_indexed(j + 1));
                            }
                        }
                        assert forall|k: K|
                            k.spec_key() != key.spec_key() implies #[trigger] self.same_entry(old(self), k) by {
                            if old(self).has(k) {
                                let j = old(self).slot(k);
                                assert(old(self).keys@[j].spec_key() == k.spec_key());
                                if j < index {
                                    assert(records_at(self.map@, self.keys@, j));
                                } else {
                                    assert(j != index);
                                    assert(self.keys@[j - 1] == old(self).keys@[j]);
                                    assert(records_at(self.map@, self.keys@, j - 1));
                                }
                            }
                            if self.has(k) {
                                let j = self.slot(k);
                                assert(self.keys@[j].spec_key() == k.spec_key());
                                if j < index {
                                    assert(old(self).keys@[j] == self.keys@[j]);
                                    assert(old(self).self_indexed(j));
                                } else {
                                    assert(old(self).keys@[j + 1] == self.keys@[j]);
                                    assert(old(self).self_indexed(j + 1));
                                }
                            }
                        }
                    }
                }
                Some(value)
            },
            None => {
                proof {
                    assert(self.map@ =~= old(self).map@);
                    assert(forall|k: K| #[trigger] self.has(k) == old(self).has(k));
                    assert(forall|k: K| #[trigger] self.lookup(k) == old(self).lookup(k));
                    assert(forall|k: K| #[trigger] self.same_entry(old(self), k));
                    if old(self).is_proper() {
                        assert forall|j: int| 0 <= j < self.key_seq().len() implies #[trigger] self.self_indexed(
                            j,
                        ) by {
                            assert(old(self).self_indexed(j));
                        }
                    }
                }
                None
            },
        }
    }

    /// Takes out the key and value at the position recorded for `key` by
    /// moving the last one into its place, whose position it then records.
    pub fn swap_remove(&mut self, key: &K) -> (r: Option<V>)
        requires
            old(self).wf(),
            old(self).has(*key) ==> old(self).slot(*key) + 1 < old(self).key_seq().len(),
        ensures
            final(self).wf(),
            old(self).has(*key) ==> {
                let i = old(self).slot(*key);
                let ks = old(self).key_seq().update(i, old(self).key_seq().last()).drop_last();
                &&& r == Some(old(self).value_seq()[i])
                &&& final(self).key_seq() == ks
                &&& final(self).value_seq() == old(self).value_seq().update(
                    i,
                    old(self).value_seq().last(),
                ).drop_last()
                &&& final(self).index_map() == old(self).index_map().remove(key.spec_key()).insert(
                    ks[i].spec_key(),
                    i as usize,
                )
            },
            !old(self).has(*key) ==> {
                &&& r == None::<V>
                &&& final(self).key_seq() == old(self).key_seq()
                &&& final(self).value_seq() == old(self).value_seq()
                &&& final(self).index_map() == old(self).index_map()
            },
            old(self).is_accurate() ==> final(self).is_accurate(),
    {
        let h = key.key();
        match self.map.remove(&h) {
            Some(index) => {
                let value = self.values.swap_remove(index);
                self.keys.swap_remove(index);
                let moved = self.keys[index].key();
                self.map.insert(moved, index);
                proof {
                    if old(self).is_accurate() {
                        assert forall|g: u64| #[trigger] self.map@.contains_key(g) implies (
                        self.map@[g] as int) < self.keys@.len() && self.keys@[self.map@[g] as int].spec_key()
                            == g by {
                            if g != moved {
                                assert(old(self).map@.contains_key(g));
                            }
                        }
                    }
                }
                Some(value)
            },
            None => None,
        }
    }

    /// Keeps the entries for which `f` holds, in order, and drops the index
    /// entries of the others; the positions of the kept keys are not
    /// recorded again.
    /// Keeps the entries for which `f` holds, in order, then records the
    /// position of every kept key; the entries of dropped keys stay in the
    /// index.
    pub fn retain_reindexed(&mut self, f: impl Fn(&K, &V) -> bool)
        requires
            old(self).wf(),
            forall|k: &K, v: &V| f.requires((k, v)),
        ensures
            final(self).wf(),
            exists|keep: Seq<bool>|
                #![trigger select(old(self).key_seq(), keep, old(self).key_seq().len() as int)]
                {
                    let n = old(self).key_seq().len() as int;
                    &&& keep.len() == n
                    &&& forall|i: int|
                        0 <= i < n ==> f.ensures(
                            (&old(self).key_seq()[i], &old(self).value_seq()[i]),
                            #[trigger] keep[i],
                        )
                    &&& final(self).key_seq() == select(old(self).key_seq(), keep, n)
                    &&& final(self).value_seq() == select(old(self).value_seq(), keep, n)
                    &&& final(self).index_map() == reindexed(
                        old(self).index_map(),
                        final(self).key_seq(),
                        0,
                        final(self).key_seq().len() as int,
                    )
                },
    {
        let ghost ks0 = self.keys@;
        let ghost vs0 = self.values@;
        let ghost m0 = self.map@;
        let ghost mut keep: Seq<bool> = Seq::empty();
        let mut i: usize = 0;
        while i < self.values.len()
            invariant
                self.keys@.len() == self.values@.len(),
                ks0.len() == vs0.len(),
                forall|k: &K, v: &V| f.requires((k, v)),
                0 <= keep.len() <= ks0.len(),
                i == select(ks0, keep, keep.len() as int).len(),
                self.keys@ == select(ks0, keep, keep.len() as int) + ks0.subrange(
                    keep.len() as int,
                    ks0.len() as int,
                ),
                self.values@ == select(vs0, keep, keep.len() as int) + vs0.subrange(
                    keep.len() as int,
                    vs0.len() as int,
                ),
                select(vs0, keep, keep.len() as int).len() == i,
                forall|j: int|
                    0 <= j < keep.len() ==> f.ensures((&ks0[j], &vs0[j]), #[trigger] keep[j]),
                self.map@ == m0,
            decreases self.values@.len() - i,
        {
            let ghost n = keep.len() as int;
            let ghost old_keep = keep;
            let ghost sk = select(ks0, keep, n);
            let ghost sv = select(vs0, keep, n);
            assert(self.keys@[i as int] == ks0[n]);
            assert(self.values@[i as int] == vs0[n]);
            let b = f(&self.keys[i], &self.values[i]);
            proof {
                keep = keep.push(b);
                lemma_select_prefix(ks0, keep, old_keep, n);
                lemma_select_prefix(vs0, keep, old_keep, n);
                assert(select(ks0, keep, n + 1) == if b { sk.push(ks0[n]) } else { sk });
                assert(select(vs0, keep, n + 1) == if b { sv.push(vs0[n]) } else { sv });
            }
            if !b {
                self.values.remove(i);
                self.keys.remove(i);
                proof {
                    assert(self.keys@ =~= sk + ks0.subrange(n + 1, ks0.len() as int));
                    assert(self.values@ =~= sv + vs0.subrange(n + 1, vs0.len() as int));
                }
            } else {
                i = i + 1;
                proof {
                    assert(self.keys@ =~= sk.push(ks0[n]) + ks0.subrange(n + 1, ks0.len() as int));
                    assert(self.values@ =~= sv.push(vs0[n]) + vs0.subrange(n + 1, vs0.len() as int));
                }
            }
        }
        assert(keep.len() == ks0.len());
        assert(self.keys@ =~= select(ks0, keep, keep.len() as int));
        assert(self.values@ =~= select(vs0, keep, keep.len() as int));
        self.reindex_from(0);
        assert(ks0 == old(self).key_seq());
        assert(vs0 == old(self).value_seq());
        assert(self.key_seq() == select(old(self).key_seq(), keep, old(self).key_seq().len() as int));
        assert(self.value_seq() == select(old(self).value_seq(), keep, old(self).key_seq().len() as int));
        assert(forall|i: int|
            0 <= i < ks0.len() ==> f.ensures((&ks0[i], &vs0[i]), #[trigger] keep[i]));
    }

    pub fn retain(&mut self, f: impl Fn(&K, &V) -> bool)
        requires
            old(self).wf(),
            forall|k: &K, v: &V| f.requires((k, v)),
        ensures
            final(self).wf(),
            exists|keep: Seq<bool>|
                #![trigger select(old(self).key_seq(), keep, old(self).key_seq().len() as int)]
                {
                    let n = old(self).key_seq().len() as int;
                    &&& keep.len() == n
                    &&& forall|i: int|
                        0 <= i < n ==> f.ensures(
                            (&old(self).key_seq()[i], &old(self).value_seq()[i]),
                            #[trigger] keep[i],
                        )
                    &&& final(self).key_seq() == select(old(self).key_seq(), keep, n)
                    &&& final(self).value_seq() == select(old(self).value_seq(), keep, n)
                    &&& final(self).index_map() == old(self).index_map().remove_keys(
                        dropped(old(self).key_seq(), keep, n),
                    )
                },
    {
        let ghost ks0 = self.keys@;
        let ghost vs0 = self.values@;
        let ghost m0 = self.map@;
        let ghost mut keep: Seq<bool> = Seq::empty();
        let mut i: usize = 0;
        while i < self.values.len()
            invariant
                self.keys@.len() == self.values@.len(),
                ks0.len() == vs0.len(),
                forall|k: &K, v: &V| f.requires((k, v)),
                0 <= keep.len() <= ks0.len(),
                i == select(ks0, keep, keep.len() as int).len(),
                self.keys@ == select(ks0, keep, keep.len() as int) + ks0.subrange(
                    keep.len() as int,
                    ks0.len() as int,
                ),
                self.values@ == select(vs0, keep, keep.len() as int) + vs0.subrange(
                    keep.len() as int,
                    vs0.len() as int,
                ),
                select(vs0, keep, keep.len() as int).len() == i,
                forall|j: int|
                    0 <= j < keep.len() ==> f.ensures((&ks0[j], &vs0[j]), #[trigger] keep[j]),
                self.map@ == m0.remove_keys(dropped(ks0, keep, keep.len() as int)),
            decreases self.values@.len() - i,
        {
            let ghost n = keep.len() as int;
            let ghost old_keep = keep;
            let ghost sk = select(ks0, keep, n);
            let ghost sv = select(vs0, keep, n);
            let ghost cur_k = self.keys@;
            let ghost cur_v = self.values@;
            assert(self.keys@[i as int] == ks0[n]);
            assert(self.values@[i as int] == vs0[n]);
            let b = f(&self.keys[i], &self.values[i]);
            proof {
                keep = keep.push(b);
                lemma_select_prefix(ks0, keep, old_keep, n);
                lemma_select_prefix(vs0, keep, old_keep, n);
                assert(select(ks0, keep, n + 1) == if b { sk.push(ks0[n]) } else { sk });
                assert(select(vs0, keep, n + 1) == if b { sv.push(vs0[n]) } else { sv });
            }
            if !b {
                let h = self.keys[i].key();
                self.map.remove(&h);
                self.values.remove(i);
                self.keys.remove(i);
                proof {
                    assert(dropped(ks0, keep, n + 1) =~= dropped(ks0, keep, n).insert(h)) by {
                        assert forall|g: u64| dropped(ks0, keep, n + 1).contains(g) implies dropped(
                            ks0,
                            keep,
                            n,
                        ).insert(h).contains(g) by {
                            let j = choose|j: int|
                                0 <= j < n + 1 && !keep[j] && #[trigger] ks0[j].spec_key() == g;
                            if j < n {
                                assert(dropped(ks0, keep, n).contains(g));
                            }
                        }
                        assert forall|g: u64| dropped(ks0, keep, n).insert(h).contains(g) implies dropped(
                            ks0,
                            keep,
                            n + 1,
                        ).contains(g) by {
                            if g == h {
                                assert(ks0[n].spec_key() == h);
                            } else {
                                let j = choose|j: int|
                                    0 <= j < n && !keep[j] && #[trigger] ks0[j].spec_key() == g;
                                assert(ks0[j].spec_key() == g);
                            }
                        }
                    }
                    assert(m0.remove_keys(dropped(ks0, keep, n)).remove(h) =~= m0.remove_keys(
                        dropped(ks0, keep, n + 1),
                    ));
                    assert(self.keys@ =~= sk + ks0.subrange(n + 1, ks0.len() as int));
                    assert(self.values@ =~= sv + vs0.subrange(n + 1, vs0.len() as int));
                }
            } else {
                i = i + 1;
                proof {
                    assert(dropped(ks0, keep, n + 1) =~= dropped(ks0, keep, n)) by {
                        assert forall|g: u64| dropped(ks0, keep, n + 1).contains(g) implies dropped(
                            ks0,
                            keep,
                            n,
                        ).contains(g) by {
                            let j = choose|j: int|
                                0 <= j < n + 1 && !keep[j] && #[trigger] ks0[j].spec_key() == g;
                            assert(j < n);
                        }
                        assert forall|g: u64| dropped(ks0, keep, n).contains(g) implies dropped(
                            ks0,
                            keep,
                            n + 1,
                        ).contains(g) by {
                            let j = choose|j: int|
                                0 <= j < n && !keep[j] && #[trigger] ks0[j].spec_key() == g;
                            assert(ks0[j].spec_key() == g);
                        }
                    }
                    assert(self.keys@ =~= sk.push(ks0[n]) + ks0.subrange(n + 1, ks0.len() as int));
                    assert(self.values@ =~= sv.push(vs0[n]) + vs0.subrange(n + 1, vs0.len() as int));
                }
            }
        }
        assert(keep.len() == ks0.len());
        assert(self.keys@ =~= select(ks0, keep, keep.len() as int));
        assert(self.values@ =~= select(vs0, keep, keep.len() as int));
        assert(keep.len() == ks0.len() && select(ks0, keep, ks0.len() as int) == self.keys@);
        assert(self.map@ == m0.remove_keys(dropped(ks0, keep, ks0.len() as int)));
        assert(forall|i: int|
            0 <= i < ks0.len() ==> f.ensures((&ks0[i], &vs0[i]), #[trigger] keep[i]));
        assert(ks0 == old(self).key_seq());
        assert(vs0 == old(self).value_seq());
        assert(m0 == old(self).index_map());
        assert(self.key_seq() == select(old(self).key_seq(), keep, old(self).key_seq().len() as int));
        assert(self.value_seq() == select(old(self).value_seq(), keep, old(self).key_seq().len() as int));
    }

    pub fn is_empty(&self) -> (r: bool)
        ensures
            r == (self.key_seq().len() == 0),
    {
        self.keys.is_empty()
    }

    /// Takes out the key and value at `index` and records the positions of
    /// the keys that follow; the index keeps its entry for the taken key.
    pub fn remove_at(&mut self, index: usize) -> (r: (K, V))
        requires
            old(self).wf(),
            index < old(self).key_seq().len(),
        ensures
            final(self).wf(),
            r == (old(self).key_seq()[index as int], old(self).value_seq()[index as int]),
            final(self).key_seq() == old(self).key_seq().remove(index as int),
            final(self).value_seq() == old(self).value_seq().remove(index as int),
            final(self).index_map() == reindexed(
                old(self).index_map(),
                final(self).key_seq(),
                index as int,
                final(self).key_seq().len() as int,
            ),
    {
        let key = self.keys.remove(index);
        let value = self.values.remove(index);
        self.reindex_from(index);
        (key, value)
    }

    /// Takes out the key and value at `index` by moving the last ones into
    /// its place, then records the positions from `index` on.
    pub fn swap_remove_at(&mut self, index: usize) -> (r: (K, V))
        requires
            old(self).wf(),
            index < old(self).key_seq().len(),
        ensures
            final(self).wf(),
            r == (old(self).key_seq()[index as int], old(self).value_seq()[index as int]),
            final(self).key_seq() == old(self).key_seq().update(
                index as int,
                old(self).key_seq().last(),
            ).drop_last(),
            final(self).value_seq() == old(self).value_seq().update(
                index as int,
                old(self).value_seq().last(),
            ).drop_last(),
            final(self).index_map() == reindexed(
                old(self).index_map(),
                final(self).key_seq(),
                index as int,
                final(self).key_seq().len() as int,
            ),
    {
        let key = self.keys.swap_remove(index);
        let value = self.values.swap_remove(index);
        self.reindex_from(index);
        (key, value)
    }

    /// Inserts each pair in turn, as `insert` does.
    pub fn extend(&mut self, items: Vec<(K, V)>)
        requires
            old(self).wf(),
            old(self).is_accurate(),
        ensures
            final(self).wf(),
            final(self).is_accurate(),
            forall|i: int|
                0 <= i < items@.len() ==> #[trigger] final(self).has(items@[i].0),
            forall|k: K| old(self).has(k) ==> #[trigger] final(self).has(k),
            forall|k: K| #[trigger] final(self).has(k) ==> old(self).has(k) || exists|i: int|
                0 <= i < items@.len() && items@[i].0 == k,
            forall|k: K| #[trigger] final(self).has(k) ==> final(self).lookup(k) == old(self).value_after(items@, k),
    {
        let mut items = items;
        let ghost all = items@;
        let mut done: Vec<(K, V)> = Vec::new();
        while items.len() > 0
            invariant
                self.wf(),
                self.is_accurate(),
                items@.len() <= all.len(),
                items@ == all.subrange(all.len() - items@.len(), all.len() as int),
                forall|i: int|
                    0 <= i < all.len() - items@.len() ==> #[trigger] self.has(all[i].0),
                forall|k: K| old(self).has(k) ==> #[trigger] self.has(k),
                forall|k: K| #[trigger] self.has(k) ==> old(self).has(k) || exists|i: int|
                    0 <= i < all.len() && all[i].0 == k,
                forall|k: K| #[trigger] self.has(k) ==> self.lookup(k) == old(self).value_after(
                    all.take(all.len() - items@.len()),
                    k,
                ),
            decreases items@.len(),
        {
            let (key, value) = items.remove(0);
            let ghost j = all.len() - items@.len() - 1;
            assert(all[j].0 == key);
            let ghost before = *self;
            let ghost value0 = value;
            let rr = self.insert(key, value);
            proof {
                before.law_get_after_insert(&*self, key, value0, rr);
                let p1 = all.take(j + 1);
                assert(p1.drop_last() =~= all.take(j));
                assert(p1.last() == (key, value0));
                assert forall|k: K| #[trigger] self.has(k) implies self.lookup(k) == old(self).value_after(p1, k) by {
                    if k.spec_key() != key.spec_key() {
                        assert(self.same_entry(&before, k));
                    }
                }
            }
            assert(self.has(key));
            assert forall|k: K| #[trigger] before.has(k) implies self.has(k) by {}
            assert forall|k: K| old(self).has(k) implies #[trigger] self.has(k) by {
                assert(before.has(k));
            }
            assert forall|i: int| 0 <= i < all.len() - items@.len() implies #[trigger] self.has(
                all[i].0,
            ) by {
                if i < j {
                    assert(before.has(all[i].0));
                }
            }
            assert forall|k: K| #[trigger] self.has(k) implies old(self).has(k) || exists|i: int|
                0 <= i < all.len() && all[i].0 == k by {
                if !before.has(k) {
                    K::lemma_key_injective(k, key);
                }
            }
            assert(items@ =~= all.subrange(all.len() - items@.len(), all.len() as int));
        }
        assert(all.take(all.len() as int) =~= all);
    }

    /// Moves every entry of `other` into this map in order, as `insert`
    /// does, leaving `other` empty.
    pub fn append(&mut self, other: &mut Self)
        requires
            old(self).wf(),
            old(self).is_accurate(),
            old(other).wf(),
        ensures
            final(self).wf(),
            final(self).is_accurate(),
            forall|i: int|
                0 <= i < old(other).key_seq().len() ==> #[trigger] final(self).has(
                    old(other).key_seq()[i],
                ),
            forall|k: K| old(self).has(k) ==> #[trigger] final(self).has(k),
            forall|k: K| #[trigger] final(self).has(k) ==> final(self).lookup(k) == old(self).value_after(
                pairs(old(other).key_seq(), old(other).value_seq()),
                k,
            ),
            final(other).key_seq() == Seq::<K>::empty(),
            final(other).value_seq() == Seq::<V>::empty(),
    {
        let items = other.drain();
        assert forall|i: int| 0 <= i < old(other).key_seq().len() implies #[trigger] items@[i].0
            == old(other).key_seq()[i] by {}
        let ghost its = items@;
        self.extend(items);
        assert forall|i: int| 0 <= i < old(other).key_seq().len() implies #[trigger] self.has(
            old(other).key_seq()[i],
        ) by {
            assert(self.has(its[i].0));
        }
    }

    /// The keys, in order.
    pub fn into_keys(self) -> (r: Vec<K>)
        ensures
            r@ == self.key_seq(),
    {
        self.keys
    }

    pub fn iter(&self) -> (r: DenseMapIter<'_, K, V>)
        ensures
            r.source() == self,
            r.position() == 0,
    {
        DenseMapIter::new(self)
    }

    pub fn iter_mut(&mut self) -> (r: DenseMapIterMut<'_, K, V>)
        ensures
            r.source() == *old(self),
            r.position() == 0,
    {
        DenseMapIterMut::new(self)
    }

    pub fn keys(&self) -> (r: &[K])
        ensures
            r@ == self.key_seq(),
    {
        self.keys.as_slice()
    }

    pub fn values(&self) -> (r: &[V])
        ensures
            r@ == self.value_seq(),
    {
        self.values.as_slice()
    }

    pub fn values_mut(&mut self) -> (r: &mut [V])
        requires
            old(self).wf(),
        ensures
            r@ == old(self).value_seq(),
            final(self).value_seq() == final(r)@,
            final(self).key_seq() == old(self).key_seq(),
            final(self).index_map() == old(self).index_map(),
            final(r)@.len() == old(self).value_seq().len() ==> final(self).wf(),
    {
        self.values.as_mut_slice()
    }

    pub fn len(&self) -> (r: usize)
        ensures
            r == self.value_seq().len(),
    {
        self.values.len()
    }

    /// The value at position `index`, to change in place.
    pub fn value_at_mut(&mut self, index: usize) -> (r: &mut V)
        requires
            index < old(self).value_seq().len(),
        ensures
            *r == old(self).value_seq()[index as int],
            final(self).value_seq() == old(self).value_seq().update(index as int, *final(r)),
            final(self).key_seq() == old(self).key_seq(),
            final(self).index_map() == old(self).index_map(),
            old(self).wf() ==> final(self).wf(),
    {
        &mut self.values[index]
    }

    /// The value at position `index`.
    pub fn value_at(&self, index: usize) -> (r: &V)
        requires
            index < self.value_seq().len(),
        ensures
            *r == self.value_seq()[index as int],
    {
        &self.values[index]
    }

    /// The key at position `index`.
    pub fn key_at(&self, index: usize) -> (r: K)
        requires
            index < self.key_seq().len(),
        ensures
            r == self.key_seq()[index as int],
    {
        self.keys[index]
    }

    /// Empties the map, handing back its keys in order.
    pub fn drain_keys(&mut self) -> (r: Vec<K>)
        ensures
            r@ == old(self).key_seq(),
            final(self).wf(),
            final(self).key_seq() == Seq::<K>::empty(),
            final(self).value_seq() == Seq::<V>::empty(),
            final(self).index_map() == Map::<u64, usize>::empty(),
    {
        self.map.clear();
        self.values.clear();
        let mut keys = Vec::new();
        std::mem::swap(&mut keys, &mut self.keys);
        keys
    }

    /// Empties the map, handing back its keys paired with its values in order.
    pub fn drain(&mut self) -> (r: Vec<(K, V)>)
        requires
            old(self).wf(),
        ensures
            r@ == pairs(old(self).key_seq(), old(self).value_seq()),
            final(self).wf(),
            final(self).key_seq() == Seq::<K>::empty(),
            final(self).value_seq() == Seq::<V>::empty(),
            final(self).index_map() == Map::<u64, usize>::empty(),
            final(self).is_proper(),
    {
        self.map.clear();
        let mut keys = Vec::new();
        std::mem::swap(&mut keys, &mut self.keys);
        let mut values = Vec::new();
        std::mem::swap(&mut values, &mut self.values);
        zip_vecs(keys, values)
    }

    /// The index has an entry for `key`.
    pub fn contains(&self, key: &K) -> (r: bool)
        ensures
            r == self.has(*key),
    {
        self.map.contains_key(&key.key())
    }

    /// Orders the keys by their numbers and records their new positions; the
    /// values stay where they are.
    pub fn sort(&mut self)
        requires
            old(self).wf(),
        ensures
            final(self).wf(),
            sorted_by_key(final(self).key_seq()),
            final(self).key_seq().to_multiset() == old(self).key_seq().to_multiset(),
            final(self).value_seq() == old(self).value_seq(),
            final(self).index_map() == reindexed(
                Map::<u64, usize>::empty(),
                final(self).key_seq(),
                0,
                final(self).key_seq().len() as int,
            ),
            final(self).is_accurate(),
            old(self).is_proper() ==> final(self).is_proper(),
    {
        sort_keys(&mut self.keys);
        self.map = HashMap::new();
        proof {
            assert(self.keys@.len() == self.keys.len());
            lemma_reindexed_accurate(self.map@, self.keys@, 0);
        }
        self.reindex_from(0);
        proof {
            if old(self).is_proper() {
                old(self).lemma_proper_distinct();
                lemma_permutation_distinct(old(self).keys@, self.keys@);
                assert(self.keys@.len() == self.keys.len());
                lemma_reindexed_proper(Map::<u64, usize>::empty(), self.keys@, 0);
                assert forall|j: int| 0 <= j < self.key_seq().len() implies #[trigger] self.self_indexed(j) by {
                    assert(records_at(self.map@, self.keys@, j));
                }
            }
        }
    }

    /// Orders the keys by the comparison `f` and records their new
    /// positions; the values stay where they are.
    pub fn sort_by<F: Fn(&K, &K) -> std::cmp::Ordering>(&mut self, f: F)
        requires
            old(self).wf(),
            consistent(f),
        ensures
            final(self).wf(),
            sorted_with(f, final(self).key_seq()),
            final(self).key_seq().to_multiset() == old(self).key_seq().to_multiset(),
            final(self).value_seq() == old(self).value_seq(),
            final(self).index_map() == indexed_afresh(final(self).key_seq()),
            final(self).is_accurate(),
            old(self).is_proper() ==> final(self).is_proper(),
    {
        sort_with(&mut self.keys, f);
        self.map = HashMap::new();
        proof {
            assert(self.keys@.len() == self.keys.len());
            lemma_reindexed_accurate(self.map@, self.keys@, 0);
        }
        self.reindex_from(0);
        proof {
            if old(self).is_proper() {
                old(self).lemma_proper_distinct();
                lemma_permutation_distinct(old(self).keys@, self.keys@);
                assert(self.keys@.len() == self.keys.len());
                lemma_reindexed_proper(Map::<u64, usize>::empty(), self.keys@, 0);
                assert forall|j: int| 0 <= j < self.key_seq().len() implies #[trigger] self.self_indexed(j) by {
                    assert(records_at(self.map@, self.keys@, j));
                }
            }
        }
    }

    pub fn clear(&mut self)
        ensures
            final(self).wf(),
            final(self).key_seq() == Seq::<K>::empty(),
            final(self).value_seq() == Seq::<V>::empty(),
            final(self).index_map() == Map::<u64, usize>::empty(),
            final(self).is_proper(),
    {
        self.map.clear();
        self.values.clear();
        self.keys.clear();
    }
}

/// A cursor over the entries of a map, from its first position.
pub struct DenseMapIter<'a, K: Key, V> {
    map: &'a DenseMap<K, V>,
    index: usize,
}

impl<'a, K: Key, V> DenseMapIter<'a, K, V> {
    pub closed spec fn position(&self) -> usize {
        self.index
    }

    pub closed spec fn source(&self) -> &'a DenseMap<K, V> {
        self.map
    }

    pub fn new(map: &'a DenseMap<K, V>) -> (r: Self)
        ensures
            r.source() == map,
            r.position() == 0,
    {
        DenseMapIter { map: map, index: 0 }
    }

    /// Yields an entry only when the cursor stands past the last position,
    /// which a cursor made by `new` never does: every call yields nothing.
    pub fn next(&mut self) -> (r: Option<(&'a K, &'a V)>)
        requires
            old(self).source().wf(),
            old(self).position() <= old(self).source().key_seq().len(),
        ensures
            r is None,
            *final(self) == *old(self),
    {
        if self.index > self.map.values.len() {
            let key = &self.map.keys[self.index];
            let value = &self.map.values[self.index];
            self.index = self.index + 1;
            Some((key, value))
        } else {
            None
        }
    }
}

/// A cursor over the entries of a map, from its first position, that may
/// change the values.
pub struct DenseMapIterMut<'a, K: Key, V> {
    map: &'a mut DenseMap<K, V>,
    index: usize,
}

impl<'a, K: Key, V> DenseMapIterMut<'a, K, V> {
    pub closed spec fn position(&self) -> usize {
        self.index
    }

    pub closed spec fn source(&self) -> DenseMap<K, V> {
        *self.map
    }

    pub fn new(map: &'a mut DenseMap<K, V>) -> (r: Self)
        ensures
            r.source() == *old(map),
            r.position() == 0,
    {
        DenseMapIterMut { map, index: 0 }
    }
}

/// Keys in insertion order with an index from the number of a key to the
/// position recorded for it.
#[derive(Clone)]
pub struct DenseSet<K: Key> {
    keys: Vec<K>,
    map: HashMap<u64, usize>,
}

impl<K: Key> DenseSet<K> {
    pub closed spec fn key_seq(&self) -> Seq<K> {
        self.keys@
    }

    pub closed spec fn index_map(&self) -> Map<u64, usize> {
        self.map@
    }

    /// Every entry of the index points at a position that holds its key.
    pub open spec fn is_accurate(&self) -> bool {
        accurate(self.index_map(), self.key_seq())
    }

    pub open spec fn has(&self, k: K) -> bool {
        self.index_map().contains_key(k.spec_key())
    }

    pub open spec fn slot(&self, k: K) -> int {
        self.index_map()[k.spec_key()] as int
    }

    pub open spec fn in_range(&self, k: K) -> bool {
        self.has(k) ==> self.slot(k) < self.key_seq().len()
    }

    pub proof fn lemma_len(&self)
        ensures
            self.key_seq().len() <= usize::MAX,
    {
        assert(self.keys.len() == self.keys@.len());
    }

    pub fn new() -> (r: Self)
        ensures
            r.key_seq() == Seq::<K>::empty(),
            r.index_map() == Map::<u64, usize>::empty(),
            r.is_proper(),
    {
        DenseSet { keys: Vec::new(), map: HashMap::new() }
    }

    /// The position recorded for `key`.
    pub fn index(&self, key: &K) -> (r: Option<usize>)
        ensures
            r == (if self.has(*key) {
                Some(self.index_map()[key.spec_key()])
            } else {
                None::<usize>
            }),
    {
        match self.map.get(&key.key()) {
            Some(i) => Some(*i),
            None => None,
        }
    }

    /// Appends `key` and records its position, which it returns; a key
    /// already present is appended again.
    pub fn insert(&mut self, key: K) -> (r: usize)
        ensures
            r == old(self).key_seq().len(),
            final(self).key_seq() == old(self).key_seq().push(key),
            final(self).index_map() == old(self).index_map().insert(key.spec_key(), r),
            old(self).is_accurate() ==> final(self).is_accurate(),
    {
        let index = self.keys.len();
        self.keys.push(key);
        self.map.insert(key.key(), index);
        index
    }

    /// The index is accurate and records every key at its own position: no
    /// key occurs twice.
    pub open spec fn is_proper(&self) -> bool {
        proper(self.index_map(), self.key_seq())
    }

    /// Under a proper index, `k` is listed exactly when it has an entry.
    pub proof fn lemma_proper_listed(&self, k: K)
        requires
            self.is_proper(),
        ensures
            self.key_seq().contains(k) <==> self.has(k),
            self.has(k) ==> self.key_seq()[self.slot(k)] == k,
    {
        if self.has(k) {
            K::lemma_key_injective(self.key_seq()[self.slot(k)], k);
            assert(self.key_seq()[self.slot(k)] == k);
        }
        if self.key_seq().contains(k) {
            let i = choose|i: int| 0 <= i < self.key_seq().len() && self.key_seq()[i] == k;
            assert(records_at(self.index_map(), self.key_seq(), i));
        }
    }

    /// Adds `key` after the others, unless a key with its number is
    /// recorded: then `key` is set in that key's place, and nothing moves.
    pub fn insert_unique(&mut self, key: K)
        requires
            old(self).in_range(key),
        ensures
            old(self).has(key) ==> {
                &&& final(self).key_seq() == old(self).key_seq().update(old(self).slot(key), key)
                &&& final(self).index_map() == old(self).index_map()
            },
            !old(self).has(key) ==> {
                &&& final(self).key_seq() == old(self).key_seq().push(key)
                &&& final(self).index_map() == old(self).index_map().insert(
                    key.spec_key(),
                    old(self).key_seq().len() as usize,
                )
            },
            old(self).is_accurate() && old(self).has(key) ==> final(self).key_seq() == old(self).key_seq(),
            old(self).is_accurate() ==> final(self).is_accurate(),
            old(self).is_proper() ==> final(self).is_proper(),
    {
        match self.index(&key) {
            Some(index) => {
                self.keys.set(index, key);
                proof {
                    if old(self).is_accurate() {
                        K::lemma_key_injective(key, old(self).keys@[index as int]);
                        assert(self.keys@ =~= old(self).keys@);
                    }
                }
            },
            None => {
                let index = self.keys.len();
                self.keys.push(key);
                self.map.insert(key.key(), index);
                proof {
                    if old(self).is_proper() {
                        assert forall|i: int| 0 <= i < self.key_seq().len() implies #[trigger] records_at(
                            self.index_map(),
                            self.key_seq(),
                            i,
                        ) by {
                            if i < index {
                                assert(records_at(old(self).index_map(), old(self).key_seq(), i));
                                assert(self.keys@[i] == old(self).keys@[i]);
                            }
                        }
                    }
                    if old(self).is_accurate() {
                        assert forall|h: u64| #[trigger] self.map@.contains_key(h) implies (
                        self.map@[h] as int) < self.keys@.len() && self.keys@[self.map@[h] as int].spec_key()
                            == h by {
                            if h != key.spec_key() {
                                assert(old(self).map@.contains_key(h));
                            }
                        }
                    }
                }
            },
        }
    }

    pub fn contains(&self, key: &K) -> (r: bool)
        ensures
            r == self.has(*key),
    {
        self.map.contains_key(&key.key())
    }

    /// Takes out the key at the position recorded for `key`, drops its entry,
    /// and records the positions of the keys that follow.
    pub fn remove(&mut self, key: &K) -> (r: Option<K>)
        requires
            old(self).in_range(*key),
        ensures
            old(self).has(*key) ==> {
                let i = old(self).slot(*key);
                let ks = old(self).key_seq().remove(i);
                &&& r == Some(old(self).key_seq()[i])
                &&& final(self).key_seq() == ks
                &&& final(self).index_map() == reindexed(
                    old(self).index_map().remove(key.spec_key()),
                    ks,
                    i,
                    ks.len() as int,
                )
            },
            !old(self).has(*key) ==> {
                &&& r == None::<K>
                &&& final(self).key_seq() == old(self).key_seq()
                &&& final(self).index_map() == old(self).index_map()
            },
            old(self).is_accurate() ==> final(self).is_accurate(),
    {
        let h = key.key();
        match self.map.remove(&h) {
            Some(index) => {
                let removed = self.keys.remove(index);
                proof {
                    if old(self).is_accurate() {
                        let ks = self.keys@;
                        assert(ks.len() == self.keys.len());
                        assert forall|g: u64| #[trigger] self.map@.contains_key(g) implies ((
                        self.map@[g] as int) < index && ks[self.map@[g] as int].spec_key() == g)
                            || occurs(ks, g, index as int, ks.len() as int) by {
                            let j = self.map@[g] as int;
                            assert(old(self).map@.contains_key(g));
                            if j > index {
                                assert(ks[j - 1].spec_key() == g);
                            }
                        }
                        lemma_reindexed_accurate(self.map@, ks, index as int);
                    }
                }
                self.reindex_from(index);
                Some(removed)
            },
            None => None,
        }
    }

    fn reindex_from(&mut self, start: usize)
        requires
            start <= old(self).keys@.len(),
        ensures
            final(self).keys@ == old(self).keys@,
            final(self).map@ == reindexed(
                old(self).map@,
                old(self).keys@,
                start as int,
                old(self).keys@.len() as int,
            ),
    {
        let len = self.keys.len();
        let mut i = start;
        while i < len
            invariant
                start <= i <= len,
                len == self.keys@.len(),
                self.keys@ == old(self).keys@,
                self.map@ == reindexed(old(self).map@, old(self).keys@, start as int, i as int),
            decreases len - i,
        {
            let h = self.keys[i].key();
            self.map.insert(h, i);
            i = i + 1;
        }
    }

    /// Drops the index entry of `key` and records afresh the position of
    /// every key from its position on; the keys themselves stay, so a key
    /// still listed there is recorded again. Returns the position that was
    /// recorded for `key`.
    pub fn remove_index(&mut self, key: &K) -> (r: Option<usize>)
        ensures
            final(self).key_seq() == old(self).key_seq(),
            old(self).has(*key) ==> {
                let i = old(self).index_map()[key.spec_key()];
                &&& r == Some(i)
                &&& final(self).index_map() == if (i as int) < old(self).key_seq().len() {
                    reindexed(
                        old(self).index_map().remove(key.spec_key()),
                        old(self).key_seq(),
                        i as int,
                        old(self).key_seq().len() as int,
                    )
                } else {
                    old(self).index_map().remove(key.spec_key())
                }
            },
            !old(self).has(*key) ==> r is None && final(self).index_map() == old(self).index_map(),
    {
        let h = key.key();
        match self.map.remove(&h) {
            Some(index) => {
                if index < self.keys.len() {
                    self.reindex_from(index);
                }
                Some(index)
            },
            None => None,
        }
    }

    /// Takes out the key at the position recorded for `key` by moving the
    /// last key into its place, whose position it then records; tells
    /// whether `key` had a position.
    pub fn swap_remove_found(&mut self, key: &K) -> (r: bool)
        requires
            old(self).has(*key) ==> old(self).slot(*key) + 1 < old(self).key_seq().len(),
        ensures
            r == old(self).has(*key),
            old(self).has(*key) ==> {
                let i = old(self).slot(*key);
                let ks = old(self).key_seq().update(i, old(self).key_seq().last()).drop_last();
                &&& final(self).key_seq() == ks
                &&& final(self).index_map() == old(self).index_map().remove(key.spec_key()).insert(
                    ks[i].spec_key(),
                    i as usize,
                )
            },
            !old(self).has(*key) ==> {
                &&& final(self).key_seq() == old(self).key_seq()
                &&& final(self).index_map() == old(self).index_map()
            },
            old(self).is_accurate() ==> final(self).is_accurate(),
    {
        match self.swap_remove(key) {
            Some(_) => true,
            None => false,
        }
    }

    /// Takes out the key at the position recorded for `key` by moving the
    /// last key into its place, whose position it then records.
    pub fn swap_remove(&mut self, key: &K) -> (r: Option<K>)
        requires
            old(self).has(*key) ==> old(self).slot(*key) + 1 < old(self).key_seq().len(),
        ensures
            old(self).has(*key) ==> {
                let i = old(self).slot(*key);
                let ks = old(self).key_seq().update(i, old(self).key_seq().last()).drop_last();
                &&& r == Some(old(self).key_seq()[i])
                &&& final(self).key_seq() == ks
                &&& final(self).index_map() == old(self).index_map().remove(key.spec_key()).insert(
                    ks[i].spec_key(),
                    i as usize,
                )
            },
            !old(self).has(*key) ==> {
                &&& r == None::<K>
                &&& final(self).key_seq() == old(self).key_seq()
                &&& final(self).index_map() == old(self).index_map()
            },
            old(self).is_accurate() ==> final(self).is_accurate(),
    {
        let h = key.key();
        match self.map.remove(&h) {
            Some(index) => {
                let removed = self.keys.swap_remove(index);
                let moved = self.keys[index].key();
                self.map.insert(moved, index);
                proof {
                    if old(self).is_accurate() {
                        assert forall|g: u64| #[trigger] self.map@.contains_key(g) implies (
                        self.map@[g] as int) < self.keys@.len() && self.keys@[self.map@[g] as int].spec_key()
                            == g by {
                            if g != moved {
                                assert(old(self).map@.contains_key(g));
                            }
                        }
                    }
                }
                Some(removed)
            },
            None => None,
        }
    }

    /// Keeps the keys for which `f` holds, in order, and drops the index
    /// entries of the others; the positions of the kept keys are not
    /// recorded again.
    pub fn retain(&mut self, f: impl Fn(&K) -> bool)
        requires
            forall|k: &K| f.requires((k,)),
        ensures
            exists|keep: Seq<bool>|
                #![trigger select(old(self).key_seq(), keep, old(self).key_seq().len() as int)]
                {
                    let n = old(self).key_seq().len() as int;
                    &&& keep.len() == n
                    &&& forall|i: int|
                        0 <= i < n ==> f.ensures((&old(self).key_seq()[i],), #[trigger] keep[i])
                    &&& final(self).key_seq() == select(old(self).key_seq(), keep, n)
                    &&& final(self).index_map() == old(self).index_map().remove_keys(
                        dropped(old(self).key_seq(), keep, n),
                    )
                },
    {
        let ghost ks0 = self.keys@;
        let ghost m0 = self.map@;
        let ghost mut keep: Seq<bool> = Seq::empty();
        let mut i: usize = 0;
        while i < self.keys.len()
            invariant
                forall|k: &K| f.requires((k,)),
                0 <= keep.len() <= ks0.len(),
                i == select(ks0, keep, keep.len() as int).len(),
                self.keys@ == select(ks0, keep, keep.len() as int) + ks0.subrange(
                    keep.len() as int,
                    ks0.len() as int,
                ),
                forall|j: int| 0 <= j < keep.len() ==> f.ensures((&ks0[j],), #[trigger] keep[j]),
                self.map@ == m0.remove_keys(dropped(ks0, keep, keep.len() as int)),
            decreases self.keys@.len() - i,
        {
            let ghost n = keep.len() as int;
            let ghost old_keep = keep;
            let ghost sk = select(ks0, keep, n);
            assert(self.keys@[i as int] == ks0[n]);
            let b = f(&self.keys[i]);
            proof {
                keep = keep.push(b);
                lemma_select_prefix(ks0, keep, old_keep, n);
                assert(select(ks0, keep, n + 1) == if b { sk.push(ks0[n]) } else { sk });
            }
            if !b {
                let h = self.keys[i].key();
                self.map.remove(&h);
                self.keys.remove(i);
                proof {
                    lemma_dropped_step(ks0, keep, n, h);
                    assert(m0.remove_keys(dropped(ks0, keep, n)).remove(h) =~= m0.remove_keys(
                        dropped(ks0, keep, n + 1),
                    ));
                    assert(self.keys@ =~= sk + ks0.subrange(n + 1, ks0.len() as int));
                }
            } else {
                i = i + 1;
                proof {
                    lemma_dropped_step(ks0, keep, n, 0);
                    assert(self.keys@ =~= sk.push(ks0[n]) + ks0.subrange(n + 1, ks0.len() as int));
                }
            }
        }
        assert(self.keys@ =~= select(ks0, keep, keep.len() as int));
        assert(ks0 == old(self).key_seq());
        assert(m0 == old(self).index_map());
        assert(self.key_seq() == select(old(self).key_seq(), keep, old(self).key_seq().len() as int));
    }

    /// The key at position `index`.
    pub fn get(&self, index: usize) -> (r: Option<&K>)
        ensures
            index < self.key_seq().len() ==> r == Some(&self.key_seq()[index as int]),
            index >= self.key_seq().len() ==> r is None,
    {
        if index < self.keys.len() {
            Some(&self.keys[index])
        } else {
            None
        }
    }

    /// The key at position `index`, to change in place; the index is left
    /// as it is.
    pub fn get_mut(&mut self, index: usize) -> (r: Option<&mut K>)
        ensures
            index < old(self).key_seq().len() ==> r is Some,
            index >= old(self).key_seq().len() ==> r is None,
            match r {
                Some(k) => {
                    &&& *k == old(self).key_seq()[index as int]
                    &&& final(self).key_seq() == old(self).key_seq().update(index as int, *final(k))
                    &&& final(self).index_map() == old(self).index_map()
                },
                None => *final(self) == *old(self),
            },
    {
        if index < self.keys.len() {
            Some(&mut self.keys[index])
        } else {
            None
        }
    }

    /// Puts `value` at `index` and records the positions from `index` on.
    pub fn insert_before(&mut self, index: usize, value: K)
        requires
            index <= old(self).key_seq().len(),
        ensures
            final(self).key_seq() == old(self).key_seq().insert(index as int, value),
            final(self).index_map() == reindexed(
                old(self).index_map(),
                final(self).key_seq(),
                index as int,
                final(self).key_seq().len() as int,
            ),
    {
        self.keys.insert(index, value);
        self.reindex_from(index);
    }

    /// Puts `value` just after `index` and records the positions from
    /// `index` on.
    pub fn insert_after(&mut self, index: usize, value: K)
        requires
            index < old(self).key_seq().len(),
        ensures
            final(self).key_seq() == old(self).key_seq().insert(index + 1, value),
            final(self).index_map() == reindexed(
                old(self).index_map(),
                final(self).key_seq(),
                index as int,
                final(self).key_seq().len() as int,
            ),
    {
        assert(self.keys@.len() == self.keys.len());
        self.keys.insert(index + 1, value);
        self.reindex_from(index);
    }

    /// Takes out the key at `index` and records the positions from `index`
    /// on; the index keeps its entry for the taken key.
    pub fn remove_at(&mut self, index: usize) -> (r: Option<K>)
        requires
            index < old(self).key_seq().len(),
        ensures
            r == Some(old(self).key_seq()[index as int]),
            final(self).key_seq() == old(self).key_seq().remove(index as int),
            final(self).index_map() == reindexed(
                old(self).index_map(),
                final(self).key_seq(),
                index as int,
                final(self).key_seq().len() as int,
            ),
    {
        let value = self.keys.remove(index);
        self.reindex_from(index);
        Some(value)
    }

    /// Takes out the key at `index` by moving the last key into its place,
    /// whose position it then records; the index keeps its entry for the key
    /// taken out.
    pub fn swap_remove_at(&mut self, index: usize) -> (r: K)
        requires
            index < old(self).key_seq().len(),
        ensures
            r == old(self).key_seq()[index as int],
            final(self).key_seq() == old(self).key_seq().update(
                index as int,
                old(self).key_seq().last(),
            ).drop_last(),
            index + 1 < old(self).key_seq().len() ==> final(self).index_map() == old(
                self,
            ).index_map().insert(old(self).key_seq().last().spec_key(), index),
            index + 1 == old(self).key_seq().len() ==> final(self).index_map() == old(
                self,
            ).index_map(),
    {
        let value = self.keys.swap_remove(index);
        if index < self.keys.len() {
            let moved = self.keys[index].key();
            self.map.insert(moved, index);
        }
        value
    }

    /// Inserts each key in turn, as `insert` does.
    pub fn extend(&mut self, items: Vec<K>)
        ensures
            final(self).key_seq() == old(self).key_seq() + items@,
            old(self).is_accurate() ==> final(self).is_accurate(),
            forall|i: int| 0 <= i < items@.len() ==> #[trigger] final(self).has(items@[i]),
    {
        let mut i: usize = 0;
        while i < items.len()
            invariant
                i <= items@.len(),
                self.key_seq() == old(self).key_seq() + items@.subrange(0, i as int),
                old(self).is_accurate() ==> self.is_accurate(),
                forall|j: int| 0 <= j < i ==> #[trigger] self.has(items@[j]),
            decreases items@.len() - i,
        {
            let ghost before = *self;
            self.insert(items[i]);
            assert forall|j: int| 0 <= j < i + 1 implies #[trigger] self.has(items@[j]) by {
                if j < i {
                    assert(before.has(items@[j]));
                }
            }
            assert(self.key_seq() =~= old(self).key_seq() + items@.subrange(0, i + 1));
            i = i + 1;
        }
        assert(items@.subrange(0, i as int) =~= items@);
    }

    /// Moves the keys of `other` into this set in order, as `insert` does,
    /// leaving `other` empty.
    pub fn append(&mut self, other: &mut Self)
        ensures
            final(self).key_seq() == old(self).key_seq() + old(other).key_seq(),
            old(self).is_accurate() ==> final(self).is_accurate(),
            final(other).key_seq() == Seq::<K>::empty(),
            final(other).index_map() == Map::<u64, usize>::empty(),
    {
        let items = other.drain();
        self.extend(items);
        other.clear();
    }

    /// The position recorded for `value`.
    pub fn index_of(&self, value: &K) -> (r: Option<usize>)
        ensures
            r == (if self.has(*value) {
                Some(self.index_map()[value.spec_key()])
            } else {
                None::<usize>
            }),
    {
        self.index(value)
    }

    /// The same keys and index, no longer to be changed.
    pub fn into_immutable(self) -> (r: ImmutableDenseSet<K>)
        ensures
            r.key_seq() == self.key_seq(),
            r.index_map() == self.index_map(),
    {
        ImmutableDenseSet { keys: self.keys, map: self.map }
    }

    /// Empties the set, handing back its keys in order.
    pub fn drain(&mut self) -> (r: Vec<K>)
        ensures
            r@ == old(self).key_seq(),
            final(self).key_seq() == Seq::<K>::empty(),
            final(self).index_map() == Map::<u64, usize>::empty(),
    {
        self.map.clear();
        let mut keys = Vec::new();
        std::mem::swap(&mut keys, &mut self.keys);
        keys
    }

    pub fn keys(&self) -> (r: &[K])
        ensures
            r@ == self.key_seq(),
    {
        self.keys.as_slice()
    }

    pub fn iter(&self) -> (r: DenseSetIter<'_, K>)
        ensures
            r.source() == self,
            r.position() == 0,
    {
        DenseSetIter::new(self)
    }

    pub fn iter_mut(&mut self) -> (r: DenseSetIterMut<'_, K>)
        ensures
            r.source() == *old(self),
            r.position() == 0,
    {
        DenseSetIterMut::new(self)
    }

    pub fn len(&self) -> (r: usize)
        ensures
            r == self.key_seq().len(),
    {
        self.keys.len()
    }

    pub fn is_empty(&self) -> (r: bool)
        ensures
            r == (self.key_seq().len() == 0),
    {
        self.keys.is_empty()
    }

    /// Orders the keys by their numbers and records every position afresh.
    pub fn sort(&mut self)
        ensures
            sorted_by_key(final(self).key_seq()),
            final(self).key_seq().to_multiset() == old(self).key_seq().to_multiset(),
            final(self).index_map() == reindexed(
                Map::<u64, usize>::empty(),
                final(self).key_seq(),
                0,
                final(self).key_seq().len() as int,
            ),
            final(self).is_accurate(),
    {
        sort_keys(&mut self.keys);
        self.map.clear();
        proof {
            assert(self.keys@.len() == self.keys.len());
            lemma_reindexed_accurate(self.map@, self.keys@, 0);
        }
        self.reindex_from(0);
    }

    /// Orders the keys by the comparison `f` and records every position
    /// afresh.
    pub fn sort_by<F: Fn(&K, &K) -> std::cmp::Ordering>(&mut self, f: F)
        requires
            consistent(f),
        ensures
            sorted_with(f, final(self).key_seq()),
            final(self).key_seq().to_multiset() == old(self).key_seq().to_multiset(),
            final(self).index_map() == indexed_afresh(final(self).key_seq()),
            final(self).is_accurate(),
    {
        sort_with(&mut self.keys, f);
        self.map.clear();
        proof {
            assert(self.keys@.len() == self.keys.len());
            lemma_reindexed_accurate(self.map@, self.keys@, 0);
        }
        self.reindex_from(0);
    }

    pub fn clear(&mut self)
        ensures
            final(self).key_seq() == Seq::<K>::empty(),
            final(self).index_map() == Map::<u64, usize>::empty(),
    {
        self.map.clear();
        self.keys.clear();
    }
}

/// A set of keys that no longer changes.
#[derive(Clone)]
pub struct ImmutableDenseSet<K: Key> {
    keys: Vec<K>,
    map: HashMap<u64, usize>,
}

impl<K: Key> ImmutableDenseSet<K> {
    pub closed spec fn key_seq(&self) -> Seq<K> {
        self.keys@
    }

    pub closed spec fn index_map(&self) -> Map<u64, usize> {
        self.map@
    }

    pub open spec fn has(&self, k: K) -> bool {
        self.index_map().contains_key(k.spec_key())
    }

    pub fn contains(&self, value: &K) -> (r: bool)
        ensures
            r == self.has(*value),
    {
        self.map.contains_key(&value.key())
    }

    pub fn get(&self, index: usize) -> (r: Option<&K>)
        ensures
            index < self.key_seq().len() ==> r == Some(&self.key_seq()[index as int]),
            index >= self.key_seq().len() ==> r is None,
    {
        if index < self.keys.len() {
            Some(&self.keys[index])
        } else {
            None
        }
    }

    pub fn index_of(&self, value: &K) -> (r: Option<usize>)
        ensures
            r == (if self.has(*value) {
                Some(self.index_map()[value.spec_key()])
            } else {
                None::<usize>
            }),
    {
        match self.map.get(&value.key()) {
            Some(i) => Some(*i),
            None => None,
        }
    }

    /// The keys, in order.
    pub fn iter(&self) -> (r: &[K])
        ensures
            r@ == self.key_seq(),
    {
        self.keys.as_slice()
    }

    pub fn len(&self) -> (r: usize)
        ensures
            r == self.key_seq().len(),
    {
        self.keys.len()
    }

    pub fn is_empty(&self) -> (r: bool)
        ensures
            r == (self.key_seq().len() == 0),
    {
        self.keys.is_empty()
    }
}

/// A map that no longer changes.
#[derive(Clone)]
pub struct ImmutableDenseMap<K: Key, V> {
    keys: Vec<K>,
    values: Vec<V>,
    map: HashMap<u64, usize>,
}

impl<K: Key, V> ImmutableDenseMap<K, V> {
    pub closed spec fn key_seq(&self) -> Seq<K> {
        self.keys@
    }

    pub closed spec fn value_seq(&self) -> Seq<V> {
        self.values@
    }

    pub closed spec fn index_map(&self) -> Map<u64, usize> {
        self.map@
    }

    pub open spec fn has(&self, k: K) -> bool {
        self.index_map().contains_key(k.spec_key())
    }

    pub open spec fn slot(&self, k: K) -> int {
        self.index_map()[k.spec_key()] as int
    }

    /// The keys, values and index of `map`.
    pub fn from(map: DenseMap<K, V>) -> (r: Self)
        ensures
            r.key_seq() == map.key_seq(),
            r.value_seq() == map.value_seq(),
            r.index_map() == map.index_map(),
    {
        ImmutableDenseMap { keys: map.keys, values: map.values, map: map.map }
    }

    pub fn contains(&self, key: &K) -> (r: bool)
        ensures
            r == self.has(*key),
    {
        self.map.contains_key(&key.key())
    }

    pub fn get(&self, key: &K) -> (r: Option<&V>)
        requires
            self.has(*key) ==> self.slot(*key) < self.value_seq().len(),
        ensures
            self.has(*key) ==> r == Some(&self.value_seq()[self.slot(*key)]),
            !self.has(*key) ==> r is None,
    {
        match self.map.get(&key.key()) {
            Some(i) => Some(&self.values[*i]),
            None => None,
        }
    }

    pub fn index_of(&self, key: &K) -> (r: Option<usize>)
        ensures
            r == (if self.has(*key) {
                Some(self.index_map()[key.spec_key()])
            } else {
                None::<usize>
            }),
    {
        match self.map.get(&key.key()) {
            Some(i) => Some(*i),
            None => None,
        }
    }

    /// Each key with the value at its position, in order.
    pub fn iter(&self) -> (r: Vec<(&K, &V)>)
        requires
            self.key_seq().len() == self.value_seq().len(),
        ensures
            r@.len() == self.key_seq().len(),
            forall|i: int|
                0 <= i < r@.len() ==> #[trigger] r@[i] == (&self.key_seq()[i], &self.value_seq()[i]),
    {
        let mut out: Vec<(&K, &V)> = Vec::new();
        let mut i: usize = 0;
        while i < self.keys.len()
            invariant
                self.keys@.len() == self.values@.len(),
                i <= self.keys@.len(),
                out@.len() == i,
                forall|j: int| 0 <= j < i ==> #[trigger] out@[j] == (&self.keys@[j], &self.values@[j]),
            decreases self.keys@.len() - i,
        {
            out.push((&self.keys[i], &self.values[i]));
            i = i + 1;
        }
        out
    }

    pub fn len(&self) -> (r: usize)
        ensures
            r == self.key_seq().len(),
    {
        self.keys.len()
    }

    pub fn is_empty(&self) -> (r: bool)
        ensures
            r == (self.key_seq().len() == 0),
    {
        self.keys.is_empty()
    }
}

/// A cursor over the keys of a set, from its first position.
pub struct DenseSetIter<'a, K: Key> {
    set: &'a DenseSet<K>,
    index: usize,
}

impl<'a, K: Key> DenseSetIter<'a, K> {
    pub closed spec fn position(&self) -> usize {
        self.index
    }

    pub closed spec fn source(&self) -> &'a DenseSet<K> {
        self.set
    }

    pub fn new(set: &'a DenseSet<K>) -> (r: Self)
        ensures
            r.source() == set,
            r.position() == 0,
    {
        DenseSetIter { set, index: 0 }
    }

    /// The key at the cursor, which then moves on; nothing past the end.
    pub fn next(&mut self) -> (r: Option<&'a K>)
        ensures
            final(self).source() == old(self).source(),
            old(self).position() < old(self).source().key_seq().len() ==> {
                &&& r == Some(&old(self).source().key_seq()[old(self).position() as int])
                &&& final(self).position() == old(self).position() + 1
            },
            old(self).position() >= old(self).source().key_seq().len() ==> {
                &&& r is None
                &&& final(self).position() == old(self).position()
            },
    {
        if self.index < self.set.keys.len() {
            let key = &self.set.keys[self.index];
            self.index = self.index + 1;
            Some(key)
        } else {
            None
        }
    }
}

/// A cursor over the keys of a set, from its first position, that may change
/// them.
pub struct DenseSetIterMut<'a, K: Key> {
    set: &'a mut DenseSet<K>,
    index: usize,
}

impl<'a, K: Key> DenseSetIterMut<'a, K> {
    pub closed spec fn position(&self) -> usize {
        self.index
    }

    pub closed spec fn source(&self) -> DenseSet<K> {
        *self.set
    }

    pub fn new(set: &'a mut DenseSet<K>) -> (r: Self)
        ensures
            r.source() == *old(set),
            r.position() == 0,
    {
        DenseSetIterMut { set, index: 0 }
    }
}

proof fn lemma_dropped_step<K: Key>(ks: Seq<K>, keep: Seq<bool>, n: int, h: u64)
    requires
        0 <= n < ks.len(),
        n < keep.len(),
        !keep[n] ==> ks[n].spec_key() == h,
    ensures
        !keep[n] ==> dropped(ks, keep, n + 1) == dropped(ks, keep, n).insert(h),
        keep[n] ==> dropped(ks, keep, n + 1) == dropped(ks, keep, n),
{
    let a = dropped(ks, keep, n + 1);
    let b = dropped(ks, keep, n);
    let c = if keep[n] { b } else { b.insert(h) };
    assert forall|g: u64| #[trigger] a.contains(g) implies c.contains(g) by {
        let j = choose|j: int| 0 <= j < n + 1 && !keep[j] && #[trigger] ks[j].spec_key() == g;
        if j < n {
            assert(b.contains(g));
        }
    }
    assert forall|g: u64| #[trigger] c.contains(g) implies a.contains(g) by {
        if !keep[n] && g == h {
            assert(ks[n].spec_key() == h);
        } else {
            let j = choose|j: int| 0 <= j < n && !keep[j] && #[trigger] ks[j].spec_key() == g;
            assert(ks[j].spec_key() == g);
        }
    }
    assert(a =~= c);
}

/// The items of the first `n` positions of `s` whose flag in `keep` is set,
/// in order.
pub open spec fn select<T>(s: Seq<T>, keep: Seq<bool>, n: int) -> Seq<T>
    decreases n,
{
    if n <= 0 {
        Seq::empty()
    } else if keep[n - 1] {
        select(s, keep, n - 1).push(s[n - 1])
    } else {
        select(s, keep, n - 1)
    }
}

proof fn lemma_select_prefix<T>(s: Seq<T>, a: Seq<bool>, b: Seq<bool>, n: int)
    requires
        0 <= n <= a.len(),
        n <= b.len(),
        forall|j: int| 0 <= j < n ==> a[j] == b[j],
    ensures
        select(s, a, n) == select(s, b, n),
    decreases n,
{
    if n > 0 {
        lemma_select_prefix(s, a, b, n - 1);
    }
}

proof fn lemma_select_len<T, U>(s: Seq<T>, t: Seq<U>, keep: Seq<bool>, n: int)
    ensures
        select(s, keep, n).len() == select(t, keep, n).len(),
        select(s, keep, n).len() <= if n < 0 { 0 } else { n },
    decreases n,
{
    if n > 0 {
        lemma_select_len(s, t, keep, n - 1);
    }
}

/// The numbers of the keys among the first `n` whose flag is not set.
pub open spec fn dropped<K: Key>(ks: Seq<K>, keep: Seq<bool>, n: int) -> Set<u64> {
    Set::new(|h: u64| exists|i: int| 0 <= i < n && !keep[i] && #[trigger] ks[i].spec_key() == h)
}

/// Each key paired with the value at the same position.
pub open spec fn pairs<K, V>(ks: Seq<K>, vs: Seq<V>) -> Seq<(K, V)> {
    Seq::new(ks.len(), |i: int| (ks[i], vs[i]))
}

/// Keys in nondecreasing order of their numbers.
pub open spec fn sorted_by_key<K: Key>(ks: Seq<K>) -> bool {
    forall|i: int, j: int| 0 <= i < j < ks.len() ==> ks[i].spec_key() <= ks[j].spec_key()
}

fn zip_vecs<K, V>(keys: Vec<K>, values: Vec<V>) -> (r: Vec<(K, V)>)
    requires
        keys@.len() == values@.len(),
    ensures
        r@ == pairs(keys@, values@),
{
    let ghost ks0 = keys@;
    let ghost vs0 = values@;
    let mut keys = keys;
    let mut values = values;
    let mut out: Vec<(K, V)> = Vec::new();
    let n = keys.len();
    while keys.len() > 0
        invariant
            keys@.len() == values@.len(),
            n == ks0.len(),
            n == vs0.len(),
            out@.len() + keys@.len() == n,
            keys@ == ks0.subrange(out@.len() as int, n as int),
            values@ == vs0.subrange(out@.len() as int, n as int),
            forall|i: int| 0 <= i < out@.len() ==> #[trigger] out@[i] == (ks0[i], vs0[i]),
        decreases keys@.len(),
    {
        let ghost l = out@.len();
        let k = keys.remove(0);
        let v = values.remove(0);
        assert(k == ks0[l as int]);
        assert(v == vs0[l as int]);
        out.push((k, v));
        assert(keys@ =~= ks0.subrange(out@.len() as int, n as int));
        assert(values@ =~= vs0.subrange(out@.len() as int, n as int));
    }
    assert(out@ == pairs(ks0, vs0));
    out
}

/// Sorts keys into nondecreasing order of their numbers.
pub(crate) fn sort_keys<K: Key>(v: &mut Vec<K>)
    ensures
        sorted_by_key(final(v)@),
        final(v)@.to_multiset() == old(v)@.to_multiset(),
        final(v)@.len() == old(v)@.len(),
{
    broadcast use vstd::seq_lib::to_multiset_update;
    broadcast use vstd::multiset::group_multiset_properties;
    broadcast use vstd::multiset::group_multiset_axioms;

    let n = v.len();
    let mut i: usize = 0;
    while i < n
        invariant
            n == v@.len(),
            i <= n,
            v@.to_multiset() == old(v)@.to_multiset(),
            sorted_by_key(v@.subrange(0, i as int)),
            forall|a: int, b: int| 0 <= a < i <= b < n ==> v@[a].spec_key() <= v@[b].spec_key(),
        decreases n - i,
    {
        let mut m = i;
        let mut j = i + 1;
        while j < n
            invariant
                n == v@.len(),
                i <= m < n,
                i < j <= n,
                forall|b: int| i <= b < j ==> v@[m as int].spec_key() <= v@[b].spec_key(),
            decreases n - j,
        {
            if v[j].key() < v[m].key() {
                m = j;
            }
            j = j + 1;
        }
        let a = v[i];
        let b = v[m];
        let ghost before = v@;
        v.set(i, b);
        v.set(m, a);
        proof {
            assert(before.len() == n);
            assert(before[i as int] == a);
            assert(before[m as int] == b);
            let s1 = before.update(i as int, b);
            assert(s1.len() == n);
            vstd::seq_lib::to_multiset_update(before, i as int, b);
            vstd::seq_lib::to_multiset_update(s1, m as int, a);
            assert(s1.to_multiset() == before.to_multiset().insert(b).remove(a));
            if m != i {
                assert(s1[m as int] == b);
            }
            assert(before.contains(a));
            vstd::seq_lib::to_multiset_contains(before, a);
            assert(s1.update(m as int, a).to_multiset() =~= before.to_multiset());
            assert forall|x: int, y: int| 0 <= x < y < i + 1 implies #[trigger] v@.subrange(
                0,
                i + 1,
            )[x].spec_key() <= #[trigger] v@.subrange(0, i + 1)[y].spec_key() by {
                if y < i {
                    assert(before.subrange(0, i as int)[x] == v@[x]);
                    assert(before.subrange(0, i as int)[y] == v@[y]);
                }
            }
        }
        i = i + 1;
    }
    assert(v@.subrange(0, n as int) == v@);
}

} // verus!
