//! Stable insertion sort, specified over sequences: the result is
//! sorted, is a permutation of the input, and keeps the relative order
//! of elements that compare equal.

use vstd::prelude::*;
use vstd::relations::sorted_by;
use vstd::relations::transitive;

verus! {

/// A relation fit for sorting: any two elements compare one way or the
/// other, and the relation is transitive.
pub open spec fn total_preorder<T>(le: spec_fn(T, T) -> bool) -> bool {
    (forall|a: T, b: T| #[trigger] le(a, b) || #[trigger] le(b, a)) && transitive(le)
}

/// `x` inserted into `s` after every element that compares at or below
/// it; on a sorted `s` this keeps `s` sorted and places `x` after its
/// equals.
pub open spec fn spec_insert_by<T>(s: Seq<T>, x: T, le: spec_fn(T, T) -> bool) -> Seq<T>
    decreases s.len(),
{
    if s.len() == 0 {
        seq![x]
    } else if le(s.last(), x) {
        s.push(x)
    } else {
        spec_insert_by(s.drop_last(), x, le).push(s.last())
    }
}

/// `s` sorted by repeated insertion, in input order: a stable sort.
pub open spec fn spec_sort_by<T>(s: Seq<T>, le: spec_fn(T, T) -> bool) -> Seq<T>
    decreases s.len(),
{
    if s.len() == 0 {
        Seq::empty()
    } else {
        spec_insert_by(spec_sort_by(s.drop_last(), le), s.last(), le)
    }
}

/// Where `x` lands when inserted into `s`: after the rightmost element
/// that compares at or below it.
pub open spec fn insert_point_by<T>(s: Seq<T>, x: T, le: spec_fn(T, T) -> bool) -> int
    decreases s.len(),
{
    if s.len() == 0 {
        0
    } else if le(s.last(), x) {
        s.len() as int
    } else {
        insert_point_by(s.drop_last(), x, le)
    }
}

pub proof fn lemma_insert_point_by<T>(s: Seq<T>, x: T, le: spec_fn(T, T) -> bool)
    ensures
        0 <= insert_point_by(s, x, le) <= s.len(),
        forall|j: int| insert_point_by(s, x, le) <= j < s.len() ==> !le(#[trigger] s[j], x),
        insert_point_by(s, x, le) == 0 || le(s[insert_point_by(s, x, le) - 1], x),
    decreases s.len(),
{
    if s.len() > 0 && !le(s.last(), x) {
        lemma_insert_point_by(s.drop_last(), x, le);
        let k = insert_point_by(s, x, le);
        assert forall|j: int| k <= j < s.len() implies !le(#[trigger] s[j], x) by {
            if j < s.len() - 1 {
                assert(!le(s.drop_last()[j], x));
            }
        }
        if k > 0 {
            assert(le(s.drop_last()[k - 1], x));
        }
    }
}

/// The shape of an insertion: the prefix up to `k`, then `x`, then the
/// rest, where `k` is any index that splits `s` as the insertion does.
pub proof fn lemma_insert_by_shape<T>(s: Seq<T>, x: T, le: spec_fn(T, T) -> bool, k: int)
    requires
        0 <= k <= s.len(),
        forall|j: int| k <= j < s.len() ==> !le(#[trigger] s[j], x),
        k == 0 || le(s[k - 1], x),
    ensures
        spec_insert_by(s, x, le) == s.take(k).push(x) + s.skip(k),
    decreases s.len(),
{
    if s.len() == 0 {
        assert(s.take(0).push(x) + s.skip(0) =~= seq![x]);
    } else if le(s.last(), x) {
        assert(k == s.len());
        assert(s.take(k).push(x) + s.skip(k) =~= s.push(x));
    } else {
        assert(k < s.len());
        let dl = s.drop_last();
        assert(forall|j: int| k <= j < dl.len() ==> !le(#[trigger] dl[j], x));
        if k > 0 {
            assert(dl[k - 1] == s[k - 1]);
        }
        lemma_insert_by_shape(dl, x, le, k);
        assert((dl.take(k).push(x) + dl.skip(k)).push(s.last()) =~= s.take(k).push(x) + s.skip(k));
    }
}

/// Inserting into a sorted sequence keeps it sorted.
pub proof fn lemma_insert_by_sorted<T>(s: Seq<T>, x: T, le: spec_fn(T, T) -> bool)
    requires
        total_preorder(le),
        sorted_by(s, le),
    ensures
        sorted_by(spec_insert_by(s, x, le), le),
{
    lemma_insert_point_by(s, x, le);
    let k = insert_point_by(s, x, le);
    lemma_insert_by_shape(s, x, le, k);
    let r = spec_insert_by(s, x, le);
    assert(r.len() == s.len() + 1);
    assert forall|i: int, j: int| 0 <= i < j < r.len() implies #[trigger] le(r[i], r[j]) by {
        let ri = if i < k {
            s[i]
        } else if i == k {
            x
        } else {
            s[i - 1]
        };
        let rj = if j < k {
            s[j]
        } else if j == k {
            x
        } else {
            s[j - 1]
        };
        assert(r[i] == ri);
        assert(r[j] == rj);
        if i < k && j == k {
            if i < k - 1 {
                assert(le(s[i], s[k - 1]));
                assert(le(s[k - 1], x));
            }
        } else if i == k && j > k {
            assert(!le(s[j - 1], x));
            assert(le(x, s[j - 1]));
        } else if i < k && j > k {
            assert(le(s[i], s[j - 1]));
        }
    }
}

/// The result of a sort is sorted.
pub proof fn lemma_sort_by_sorted<T>(s: Seq<T>, le: spec_fn(T, T) -> bool)
    requires
        total_preorder(le),
    ensures
        sorted_by(spec_sort_by(s, le), le),
    decreases s.len(),
{
    if s.len() == 0 {
    } else {
        lemma_sort_by_sorted(s.drop_last(), le);
        lemma_insert_by_sorted(spec_sort_by(s.drop_last(), le), s.last(), le);
    }
}

/// Sorting an already-sorted sequence leaves it unchanged: insertion
/// never moves an element past one that compares at or below it.
pub proof fn lemma_sort_by_of_sorted<T>(s: Seq<T>, le: spec_fn(T, T) -> bool)
    requires
        total_preorder(le),
        sorted_by(s, le),
    ensures
        spec_sort_by(s, le) == s,
    decreases s.len(),
{
    if s.len() > 0 {
        let dl = s.drop_last();
        assert(sorted_by(dl, le)) by {
            assert forall|i: int, j: int| 0 <= i < j < dl.len() implies #[trigger] le(
                dl[i],
                dl[j],
            ) by {
                assert(dl[i] == s[i] && dl[j] == s[j]);
                assert(le(s[i], s[j]));
            }
        }
        lemma_sort_by_of_sorted(dl, le);
        if dl.len() == 0 {
            assert(seq![s.last()] =~= s);
        } else {
            assert(le(s[s.len() - 2], s[s.len() - 1]));
            assert(dl.last() == s[s.len() - 2]);
            assert(dl.push(s.last()) =~= s);
        }
    }
}

pub proof fn lemma_insert_by_multiset<T>(s: Seq<T>, x: T, le: spec_fn(T, T) -> bool)
    ensures
        spec_insert_by(s, x, le).to_multiset() == s.to_multiset().insert(x),
    decreases s.len(),
{
    broadcast use vstd::seq_lib::group_to_multiset_ensures;

    if s.len() == 0 {
        assert(seq![x] =~= Seq::<T>::empty().push(x));
        assert(Seq::<T>::empty().push(x).to_multiset() =~= Seq::<T>::empty().to_multiset().insert(
            x,
        ));
        assert(s.to_multiset() =~= Seq::<T>::empty().to_multiset());
    } else if le(s.last(), x) {
        assert(s.push(x).to_multiset() =~= s.to_multiset().insert(x));
    } else {
        let dl = s.drop_last();
        lemma_insert_by_multiset(dl, x, le);
        assert(spec_insert_by(dl, x, le).push(s.last()).to_multiset() =~= spec_insert_by(
            dl,
            x,
            le,
        ).to_multiset().insert(s.last()));
        assert(dl.push(s.last()) =~= s);
        assert(dl.push(s.last()).to_multiset() =~= dl.to_multiset().insert(s.last()));
        assert(dl.to_multiset().insert(x).insert(s.last()) =~= dl.to_multiset().insert(
            s.last(),
        ).insert(x));
    }
}

/// A sort is a permutation: it keeps exactly the input's elements.
pub proof fn lemma_sort_by_multiset<T>(s: Seq<T>, le: spec_fn(T, T) -> bool)
    ensures
        spec_sort_by(s, le).to_multiset() == s.to_multiset(),
    decreases s.len(),
{
    broadcast use vstd::seq_lib::group_to_multiset_ensures;

    if s.len() > 0 {
        let dl = s.drop_last();
        lemma_sort_by_multiset(dl, le);
        lemma_insert_by_multiset(spec_sort_by(dl, le), s.last(), le);
        assert(dl.push(s.last()) =~= s);
        assert(dl.push(s.last()).to_multiset() =~= dl.to_multiset().insert(s.last()));
    }
}

pub proof fn lemma_insert_by_filter<T>(s: Seq<T>, x: T, le: spec_fn(T, T) -> bool, p: spec_fn(
    T,
) -> bool)
    requires
        forall|a: T, b: T| #[trigger] p(a) && #[trigger] p(b) ==> le(a, b),
    ensures
        p(x) ==> spec_insert_by(s, x, le).filter(p) == s.filter(p).push(x),
        !p(x) ==> spec_insert_by(s, x, le).filter(p) == s.filter(p),
    decreases s.len(),
{
    reveal(Seq::filter);
    if s.len() == 0 {
        assert(s =~= Seq::<T>::empty());
        assert(Seq::<T>::empty().filter(p) == Seq::<T>::empty());
        assert(seq![x].drop_last() =~= Seq::<T>::empty());
        assert(seq![x].last() == x);
    } else if le(s.last(), x) {
        assert(s.push(x).drop_last() =~= s);
        assert(s.push(x).last() == x);
    } else {
        let dl = s.drop_last();
        lemma_insert_by_filter(dl, x, le, p);
        let inner = spec_insert_by(dl, x, le);
        assert(inner.push(s.last()).drop_last() =~= inner);
        assert(inner.push(s.last()).last() == s.last());
        assert(dl.push(s.last()).drop_last() =~= dl);
        assert(dl.push(s.last()).last() == s.last());
        assert(dl.push(s.last()) =~= s);
        if p(x) && p(s.last()) {
            assert(le(s.last(), x));
        }
    }
}

/// Two positions holding the same element put its count at two or more.
pub proof fn lemma_dup_count<T>(s: Seq<T>, i: int, j: int)
    requires
        0 <= i < j < s.len(),
        s[i] == s[j],
    ensures
        s.to_multiset().count(s[i]) >= 2,
{
    broadcast use vstd::seq_lib::group_to_multiset_ensures;

    let t = s.remove(i);
    assert(t[j - 1] == s[j]);
    assert(t.contains(s[i]));
    assert(t.to_multiset().count(s[i]) >= 1);
    assert(s.to_multiset() == t.to_multiset().insert(s[i]));
}

/// A count of two or more yields two distinct positions holding the
/// element.
pub proof fn lemma_count_two_indices<T>(s: Seq<T>, x: T)
    requires
        s.to_multiset().count(x) >= 2,
    ensures
        exists|i: int, j: int| 0 <= i < j < s.len() && s[i] == x && s[j] == x,
{
    broadcast use vstd::seq_lib::group_to_multiset_ensures;

    assert(s.contains(x));
    let i = choose|i: int| 0 <= i < s.len() && s[i] == x;
    let t = s.remove(i);
    assert(s.to_multiset() == t.to_multiset().insert(x));
    assert(t.to_multiset().count(x) >= 1);
    assert(t.contains(x));
    let m = choose|m: int| 0 <= m < t.len() && t[m] == x;
    if m < i {
        assert(t[m] == s[m]);
        assert(s[m] == x && s[i] == x && m < i);
    } else {
        assert(t[m] == s[m + 1]);
        assert(s[i] == x && s[m + 1] == x && i < m + 1);
    }
}

/// A sort keeps the relative order of the elements of any class whose
/// members all compare at or below one another: the subsequence they
/// form is unchanged.
pub proof fn lemma_sort_by_filter<T>(s: Seq<T>, le: spec_fn(T, T) -> bool, p: spec_fn(T) -> bool)
    requires
        forall|a: T, b: T| #[trigger] p(a) && #[trigger] p(b) ==> le(a, b),
    ensures
        spec_sort_by(s, le).filter(p) == s.filter(p),
    decreases s.len(),
{
    reveal(Seq::filter);
    if s.len() > 0 {
        let dl = s.drop_last();
        lemma_sort_by_filter(dl, le, p);
        lemma_insert_by_filter(spec_sort_by(dl, le), s.last(), le, p);
        assert(dl.push(s.last()).drop_last() =~= dl);
        assert(dl.push(s.last()) =~= s);
    }
}

} // verus!
