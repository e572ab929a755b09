//! Stable sorting, specified as insertion: each element goes after every
//! element already placed that may stay before it.
use vstd::prelude::*;

verus! {

/// `s` with `x` inserted after the last element `e` with `before(e, x)`,
/// scanning from the back (so `x` follows the elements it ties with).
pub open spec fn insert_stable<T>(s: Seq<T>, x: T, before: spec_fn(T, T) -> bool) -> Seq<T>
    decreases s.len(),
{
    if s.len() == 0 {
        seq![x]
    } else if before(s.last(), x) {
        s.push(x)
    } else {
        insert_stable(s.drop_last(), x, before).push(s.last())
    }
}

/// The stable sort of `s` by `before`: elements inserted in their order in `s`.
pub open spec fn sort_stable<T>(s: Seq<T>, before: spec_fn(T, T) -> bool) -> Seq<T>
    decreases s.len(),
{
    if s.len() == 0 {
        seq![]
    } else {
        insert_stable(sort_stable(s.drop_last(), before), s.last(), before)
    }
}

/// Inserting stably is inserting at the index `j` past which no element may stay before `x`.
pub proof fn lemma_insert_at<T>(s: Seq<T>, x: T, before: spec_fn(T, T) -> bool, j: int)
    requires
        0 <= j <= s.len(),
        forall|k: int| j <= k < s.len() ==> !before(#[trigger] s[k], x),
        j > 0 ==> before(s[j - 1], x),
    ensures
        insert_stable(s, x, before) == s.insert(j, x),
    decreases s.len(),
{
    if s.len() == 0 {
        assert(s.insert(j, x) =~= seq![x]);
    } else if j == s.len() {
        assert(s.insert(j, x) =~= s.push(x));
    } else {
        assert(!before(s[s.len() - 1], x));
        let t = s.drop_last();
        assert forall|k: int| j <= k < t.len() implies !before(#[trigger] t[k], x) by {
            assert(t[k] == s[k]);
        }
        lemma_insert_at(t, x, before, j);
        assert(t.insert(j, x).push(s.last()) =~= s.insert(j, x));
    }
}

/// `before` orders every pair of values one way or the other and is transitive.
pub open spec fn total_preorder<T>(before: spec_fn(T, T) -> bool) -> bool {
    &&& forall|a: T, b: T| #[trigger] before(a, b) || #[trigger] before(b, a)
    &&& forall|a: T, b: T, c: T| #[trigger] before(a, b) && #[trigger] before(b, c) ==> before(a, c)
}

/// Each element may stay before every later one.
pub open spec fn sorted_by<T>(s: Seq<T>, before: spec_fn(T, T) -> bool) -> bool {
    forall|i: int, j: int| 0 <= i < j < s.len() ==> before(#[trigger] s[i], #[trigger] s[j])
}

/// Inserting into a sorted sequence keeps it sorted and adds exactly `x`.
pub proof fn lemma_insert_sorted<T>(s: Seq<T>, x: T, before: spec_fn(T, T) -> bool)
    requires
        total_preorder(before),
        sorted_by(s, before),
    ensures
        sorted_by(insert_stable(s, x, before), before),
        insert_stable(s, x, before).to_multiset() == s.to_multiset().insert(x),
    decreases s.len(),
{
    broadcast use vstd::seq_lib::group_to_multiset_ensures;

    let r = insert_stable(s, x, before);
    if s.len() == 0 {
        assert(r =~= seq![x]);
        assert(seq![x] =~= Seq::<T>::empty().push(x));
    } else if before(s.last(), x) {
        assert forall|i: int, j: int| 0 <= i < j < r.len() implies before(
            #[trigger] r[i],
            #[trigger] r[j],
        ) by {
            if j == s.len() {
                if i < s.len() - 1 {
                    assert(before(s[i], s[s.len() - 1]));
                }
            }
        }
    } else {
        let t = s.drop_last();
        assert(sorted_by(t, before));
        lemma_insert_sorted(t, x, before);
        let u = insert_stable(t, x, before);
        assert(before(x, s.last()));
        assert forall|i: int, j: int| 0 <= i < j < r.len() implies before(
            #[trigger] r[i],
            #[trigger] r[j],
        ) by {
            if j == u.len() {
                // every element of u is x or an element of t
                assert(u.to_multiset().count(u[i]) > 0);
                assert(u.to_multiset() == t.to_multiset().insert(x));
                if u[i] != x {
                    assert(t.to_multiset().count(u[i]) > 0);
                    assert(t.contains(u[i]));
                    let k = choose|k: int| 0 <= k < t.len() && t[k] == u[i];
                    assert(before(s[k], s[s.len() - 1]));
                }
            }
        }
        assert(s =~= t.push(s.last()));
    }
}

/// The stable sort is sorted and holds the same elements.
pub proof fn lemma_sort_stable<T>(s: Seq<T>, before: spec_fn(T, T) -> bool)
    requires
        total_preorder(before),
    ensures
        sorted_by(sort_stable(s, before), before),
        sort_stable(s, before).to_multiset() == s.to_multiset(),
    decreases s.len(),
{
    broadcast use vstd::seq_lib::group_to_multiset_ensures;

    if s.len() > 0 {
        lemma_sort_stable(s.drop_last(), before);
        lemma_insert_sorted(sort_stable(s.drop_last(), before), s.last(), before);
        assert(s =~= s.drop_last().push(s.last()));
    }
}

} // verus!
