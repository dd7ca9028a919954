//! Stable insertion into ordered sequences, as a specification, with its laws.
use vstd::prelude::*;

verus! {

/// `x` placed into `sorted` (ordered by descending `key`) after every
/// element whose key is at least `key(x)`.
pub open spec fn insert_desc<T>(sorted: Seq<T>, x: T, key: spec_fn(T) -> int) -> Seq<T>
    decreases sorted.len(),
{
    if sorted.len() == 0 {
        seq![x]
    } else if key(sorted.last()) >= key(x) {
        sorted.push(x)
    } else {
        insert_desc(sorted.drop_last(), x, key).push(sorted.last())
    }
}

/// `s` stably sorted by descending `key`: elements with equal keys keep
/// their order.
pub open spec fn sort_desc<T>(s: Seq<T>, key: spec_fn(T) -> int) -> Seq<T>
    decreases s.len(),
{
    if s.len() == 0 {
        s
    } else {
        insert_desc(sort_desc(s.drop_last(), key), s.last(), key)
    }
}

pub open spec fn is_desc<T>(s: Seq<T>, key: spec_fn(T) -> int) -> bool {
    forall|i: int, j: int| 0 <= i <= j < s.len() ==> key(#[trigger] s[i]) >= key(#[trigger] s[j])
}

/// Inserting at the boundary position found by scanning from the end.
pub proof fn lemma_insert_desc_at<T>(sorted: Seq<T>, x: T, key: spec_fn(T) -> int, j: int)
    requires
        0 <= j <= sorted.len(),
        forall|i: int| j <= i < sorted.len() ==> key(#[trigger] sorted[i]) < key(x),
        j == 0 || key(sorted[j - 1]) >= key(x),
    ensures
        insert_desc(sorted, x, key) == sorted.take(j) + seq![x] + sorted.skip(j),
    decreases sorted.len(),
{
    if sorted.len() == 0 {
        assert(sorted.take(j) + seq![x] + sorted.skip(j) =~= seq![x]);
    } else if j == sorted.len() {
        assert(sorted.take(j) + seq![x] + sorted.skip(j) =~= sorted.push(x));
    } else {
        let d = sorted.drop_last();
        assert forall|i: int| j <= i < d.len() implies key(#[trigger] d[i]) < key(x) by {
            assert(d[i] == sorted[i]);
        }
        if j > 0 {
            assert(d[j - 1] == sorted[j - 1]);
        }
        lemma_insert_desc_at(d, x, key, j);
        assert(d.take(j) + seq![x] + d.skip(j) + seq![sorted.last()] =~= sorted.take(j) + seq![x]
            + sorted.skip(j));
    }
}

pub proof fn lemma_insert_desc_multiset<T>(sorted: Seq<T>, x: T, key: spec_fn(T) -> int)
    ensures
        insert_desc(sorted, x, key).to_multiset() == sorted.to_multiset().insert(x),
        insert_desc(sorted, x, key).len() == sorted.len() + 1,
    decreases sorted.len(),
{
    broadcast use vstd::seq_lib::group_to_multiset_ensures;

    if sorted.len() == 0 {
        assert(seq![x] =~= Seq::<T>::empty().push(x));
    } else if key(sorted.last()) >= key(x) {
    } else {
        let d = sorted.drop_last();
        lemma_insert_desc_multiset(d, x, key);
        assert(sorted =~= d.push(sorted.last()));
        assert(d.to_multiset().insert(x).insert(sorted.last()) =~= d.to_multiset().insert(
            sorted.last(),
        ).insert(x));
    }
}

pub proof fn lemma_insert_desc_sorted<T>(sorted: Seq<T>, x: T, key: spec_fn(T) -> int)
    requires
        is_desc(sorted, key),
    ensures
        is_desc(insert_desc(sorted, x, key), key),
        forall|i: int|
            0 <= i < insert_desc(sorted, x, key).len() ==> #[trigger] insert_desc(sorted, x, key)[i]
                == x || sorted.contains(insert_desc(sorted, x, key)[i]),
    decreases sorted.len(),
{
    if sorted.len() == 0 {
    } else if key(sorted.last()) >= key(x) {
        let r = sorted.push(x);
        assert forall|i: int, j: int| 0 <= i <= j < r.len() implies key(#[trigger] r[i]) >= key(
            #[trigger] r[j],
        ) by {
            if j == sorted.len() && i < j {
                assert(key(sorted[i]) >= key(sorted[sorted.len() - 1]));
            }
        }
        assert forall|i: int| 0 <= i < r.len() implies #[trigger] r[i] == x || sorted.contains(r[i]) by {
            if i < sorted.len() {
                assert(r[i] == sorted[i]);
            }
        }
    } else {
        let d = sorted.drop_last();
        let l = sorted.last();
        assert(is_desc(d, key)) by {
            assert forall|i: int, j: int| 0 <= i <= j < d.len() implies key(#[trigger] d[i]) >= key(
                #[trigger] d[j],
            ) by {
                assert(d[i] == sorted[i] && d[j] == sorted[j]);
            }
        }
        lemma_insert_desc_sorted(d, x, key);
        let m = insert_desc(d, x, key);
        let r = m.push(l);
        assert forall|i: int| 0 <= i < m.len() implies key(#[trigger] m[i]) >= key(l) by {
            if m[i] == x {
            } else {
                let k = choose|k: int| 0 <= k < d.len() && d[k] == m[i];
                assert(d[k] == sorted[k]);
                assert(key(sorted[k]) >= key(sorted[sorted.len() - 1]));
            }
        }
        assert forall|i: int, j: int| 0 <= i <= j < r.len() implies key(#[trigger] r[i]) >= key(
            #[trigger] r[j],
        ) by {
            if j == m.len() && i < j {
                assert(r[i] == m[i]);
            } else if j < m.len() {
                assert(r[i] == m[i] && r[j] == m[j]);
            }
        }
        assert forall|i: int| 0 <= i < r.len() implies #[trigger] r[i] == x || sorted.contains(r[i]) by {
            if i < m.len() {
                assert(r[i] == m[i]);
                if m[i] != x {
                    let k = choose|k: int| 0 <= k < d.len() && d[k] == m[i];
                    assert(sorted[k] == d[k]);
                }
            } else {
                assert(sorted[sorted.len() - 1] == l);
            }
        }
    }
}

/// A stable descending sort is ordered by descending key.
pub proof fn law_sort_desc_ordered<T>(s: Seq<T>, key: spec_fn(T) -> int)
    ensures
        is_desc(sort_desc(s, key), key),
    decreases s.len(),
{
    if s.len() > 0 {
        law_sort_desc_ordered(s.drop_last(), key);
        lemma_insert_desc_sorted(sort_desc(s.drop_last(), key), s.last(), key);
    }
}

/// A stable descending sort rearranges its input without adding or losing elements.
pub proof fn law_sort_desc_permutes<T>(s: Seq<T>, key: spec_fn(T) -> int)
    ensures
        sort_desc(s, key).to_multiset() == s.to_multiset(),
        sort_desc(s, key).len() == s.len(),
    decreases s.len(),
{
    broadcast use vstd::seq_lib::group_to_multiset_ensures;

    if s.len() > 0 {
        law_sort_desc_permutes(s.drop_last(), key);
        lemma_insert_desc_multiset(sort_desc(s.drop_last(), key), s.last(), key);
        assert(s =~= s.drop_last().push(s.last()));
    }
}

} // verus!
