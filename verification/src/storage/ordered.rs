use std::cmp::Ordering;
use vstd::prelude::*;

verus! {

/// Whether the comparison `f` can be relied on: it accepts every pair,
/// gives one answer for each pair, and never puts each of two items before
/// the other.
pub open spec fn consistent<K, F: Fn(&K, &K) -> Ordering>(f: F) -> bool {
    &&& forall|a: K, b: K| #[trigger] call_requires(f, (&a, &b))
    &&& forall|a: K, b: K, r: Ordering, s: Ordering|
        #![trigger call_ensures(f, (&a, &b), r), call_ensures(f, (&a, &b), s)]
        call_ensures(f, (&a, &b), r) && call_ensures(f, (&a, &b), s) ==> r == s
    &&& forall|a: K, b: K|
        #![trigger call_ensures(f, (&a, &b), Ordering::Less), call_ensures(f, (&b, &a), Ordering::Less)]
        call_ensures(f, (&a, &b), Ordering::Less) ==> !call_ensures(f, (&b, &a), Ordering::Less)
}

/// `b` may follow `a`: by `f`, `b` is not less than `a`.
pub open spec fn in_order<K, F: Fn(&K, &K) -> Ordering>(f: F, a: K, b: K) -> bool {
    !call_ensures(f, (&b, &a), Ordering::Less)
}

/// Each item of `s` may follow the one before it, by `f`.
pub open spec fn sorted_with<K, F: Fn(&K, &K) -> Ordering>(f: F, s: Seq<K>) -> bool {
    forall|i: int| 0 < i < s.len() ==> #[trigger] in_order(f, s[i - 1], s[i])
}

/// Sorts `v` by the comparison `f`, keeping items that compare equal in
/// the order they had.
pub fn sort_with<K: Copy, F: Fn(&K, &K) -> Ordering>(v: &mut Vec<K>, f: F)
    requires
        consistent(f),
    ensures
        sorted_with(f, final(v)@),
        final(v)@.to_multiset() == old(v)@.to_multiset(),
        final(v)@.len() == old(v)@.len(),
{
    broadcast use vstd::seq_lib::to_multiset_update;
    broadcast use vstd::multiset::group_multiset_properties;
    broadcast use vstd::multiset::group_multiset_axioms;

    let n = v.len();
    if n == 0 {
        return;
    }
    let mut i: usize = 1;
    let ghost mut gi: int = 1int;
    while i < n
        invariant
            n == v@.len(),
            1 <= i <= n,
            gi == i,
            consistent(f),
            v@.to_multiset() == old(v)@.to_multiset(),
            sorted_with(f, v@.take(gi)),
        decreases n - i,
    {
        let ghost p = v@.take(gi);
        let ghost x = v@[gi];
        let ghost rest = v@.skip(gi + 1);
        proof {
            assert(v@ =~= p.take(gi) + seq![x] + p.skip(gi) + rest);
        }
        let mut j: usize = i;
        let ghost mut gj: int = gi;
        let mut go = true;
        while go
            invariant
                n == v@.len(),
                1 <= i < n,
                gi == i,
                gj == j,
                0 <= gj <= gi,
                consistent(f),
                p.len() == gi,
                sorted_with(f, p),
                v@.to_multiset() == old(v)@.to_multiset(),
                v@ == p.take(gj) + seq![x] + p.skip(gj) + rest,
                gj < gi ==> in_order(f, x, p[gj]),
                !go ==> (gj == 0 || in_order(f, p[gj - 1], x)),
            decreases (if go { j + 1 } else { j + 0 }),
        {
            if j == 0 {
                go = false;
            } else {
                let a = v[j];
                let b = v[j - 1];
                proof {
                    assert(a == x);
                    assert(b == p[gj - 1]);
                }
                let less = match f(&a, &b) {
                    Ordering::Less => true,
                    _ => false,
                };
                if less {
                    let ghost before = v@;
                    v.set(j, b);
                    v.set(j - 1, a);
                    proof {
                        let s1 = before.update(gj, b);
                        vstd::seq_lib::to_multiset_update(before, gj, b);
                        vstd::seq_lib::to_multiset_update(s1, gj - 1, a);
                        assert(s1[gj - 1] == b);
                        vstd::seq_lib::to_multiset_contains(before, a);
                        assert(before[gj] == a);
                        assert(v@.to_multiset() =~= before.to_multiset());
                        gj = gj - 1;
                        assert(v@ =~= p.take(gj) + seq![x] + p.skip(gj) + rest);
                    }
                    j = j - 1;
                } else {
                    go = false;
                }
            }
        }
        proof {
            let q = p.take(gj) + seq![x] + p.skip(gj);
            assert(v@.take(gi + 1) =~= q);
            assert forall|k: int| 0 < k < q.len() implies #[trigger] in_order(f, q[k - 1], q[k]) by {
                if k < gj {
                    assert(q[k - 1] == p[k - 1] && q[k] == p[k]);
                    assert(in_order(f, p[k - 1], p[k]));
                } else if k == gj {
                    assert(q[k - 1] == p[gj - 1] && q[k] == x);
                } else if k == gj + 1 {
                    assert(q[k - 1] == x && q[k] == p[gj]);
                    assert(in_order(f, x, p[gj]));
                } else {
                    assert(q[k - 1] == p[k - 2] && q[k] == p[k - 1]);
                    let i = k - 1;
                    assert(in_order(f, p[i - 1], p[i]));
                }
            }
            gi = gi + 1;
        }
        i = i + 1;
    }
    proof {
        assert(v@.take(gi) =~= v@);
    }
}

} // verus!
