//! Stable sorting by specificity.
//!
//! The sort is defined by insertion: the items are taken in their order,
//! and each goes behind every item that is already placed and must not
//! come after it. Items of equal rank so keep their order.

use vstd::prelude::*;

verus! {

/// A triple compared lexicographically.
pub type Rank = (nat, nat, nat);

/// Whether `a` comes strictly before `b` in the lexicographic order.
pub open spec fn rank_lt(a: Rank, b: Rank) -> bool {
    a.0 < b.0 || (a.0 == b.0 && (a.1 < b.1 || (a.1 == b.1 && a.2 < b.2)))
}

/// Whether an item of rank `a` must stand before one of rank `b`: with the
/// lower rank first, or, if `descending`, with the higher rank first.
pub open spec fn precedes(a: Rank, b: Rank, descending: bool) -> bool {
    if descending {
        rank_lt(b, a)
    } else {
        rank_lt(a, b)
    }
}

/// The sorted sequence `sorted` with `x` put in: behind every item that it
/// need not precede.
pub open spec fn insert_sorted<T>(
    sorted: Seq<T>,
    x: T,
    rank: spec_fn(T) -> Rank,
    descending: bool,
) -> Seq<T>
    decreases sorted.len(),
{
    if sorted.len() > 0 && precedes(rank(x), rank(sorted.last()), descending) {
        insert_sorted(sorted.drop_last(), x, rank, descending).push(sorted.last())
    } else {
        sorted.push(x)
    }
}

/// The items of `v` sorted by rank; items of equal rank keep their order.
pub open spec fn stable_sort<T>(v: Seq<T>, rank: spec_fn(T) -> Rank, descending: bool) -> Seq<T>
    decreases v.len(),
{
    if v.len() == 0 {
        Seq::empty()
    } else {
        insert_sorted(stable_sort(v.drop_last(), rank, descending), v.last(), rank, descending)
    }
}

/// Whether no item stands before one that it must come after.
pub open spec fn ordered<T>(v: Seq<T>, rank: spec_fn(T) -> Rank, descending: bool) -> bool {
    forall|i: int, j: int|
        0 <= i < j < v.len() ==> !precedes(rank(v[j]), rank(v[i]), descending)
}

/// Where an item is put in: at `k`, if it must precede every item from
/// `k` on and not the one before.
pub proof fn lemma_insert_position<T>(
    sorted: Seq<T>,
    x: T,
    rank: spec_fn(T) -> Rank,
    descending: bool,
    k: int,
)
    requires
        0 <= k <= sorted.len(),
        forall|j: int| k <= j < sorted.len() ==> precedes(rank(x), rank(sorted[j]), descending),
        k > 0 ==> !precedes(rank(x), rank(sorted[k - 1]), descending),
    ensures
        insert_sorted(sorted, x, rank, descending) == sorted.insert(k, x),
    decreases sorted.len(),
{
    if k < sorted.len() {
        lemma_insert_position(sorted.drop_last(), x, rank, descending, k);
        assert(sorted.drop_last().insert(k, x).push(sorted.last()) =~= sorted.insert(k, x));
    } else {
        assert(sorted.push(x) =~= sorted.insert(k, x));
    }
}

/// Putting an item into an ordered sequence gives an ordered sequence,
/// one longer, in which the items that were there keep their order and
/// the new item stands behind those of its own rank.
pub proof fn lemma_insert_sorted<T>(
    sorted: Seq<T>,
    x: T,
    rank: spec_fn(T) -> Rank,
    descending: bool,
)
    requires
        ordered(sorted, rank, descending),
    ensures
        ordered(insert_sorted(sorted, x, rank, descending), rank, descending),
        exists|k: int|
            0 <= k <= sorted.len() && #[trigger] sorted.insert(k, x) == insert_sorted(
                sorted,
                x,
                rank,
                descending,
            ) && (forall|j: int|
                k <= j < sorted.len() ==> precedes(rank(x), rank(sorted[j]), descending)) && (
            forall|j: int| 0 <= j < k ==> !precedes(rank(x), rank(sorted[j]), descending)),
    decreases sorted.len(),
{
    if sorted.len() > 0 && precedes(rank(x), rank(sorted.last()), descending) {
        let front = sorted.drop_last();
        assert forall|i: int, j: int| 0 <= i < j < front.len() implies !precedes(
            rank(front[j]),
            rank(front[i]),
            descending,
        ) by {
            assert(front[i] == sorted[i] && front[j] == sorted[j]);
        }
        lemma_insert_sorted(front, x, rank, descending);
        let k = choose|k: int|
            0 <= k <= front.len() && #[trigger] front.insert(k, x) == insert_sorted(
                front,
                x,
                rank,
                descending,
            ) && (forall|j: int|
                k <= j < front.len() ==> precedes(rank(x), rank(front[j]), descending)) && (
            forall|j: int| 0 <= j < k ==> !precedes(rank(x), rank(front[j]), descending));
        assert(front.insert(k, x).push(sorted.last()) =~= sorted.insert(k, x));
        assert forall|j: int| k <= j < sorted.len() implies precedes(
            rank(x),
            rank(sorted[j]),
            descending,
        ) by {
            if j < front.len() {
                assert(front[j] == sorted[j]);
            }
        }
        assert forall|j: int| 0 <= j < k implies !precedes(rank(x), rank(sorted[j]), descending) by {
            assert(front[j] == sorted[j]);
        }
        lemma_inserted_ordered(sorted, x, rank, descending, k);
    } else {
        let k = sorted.len() as int;
        assert(sorted.push(x) =~= sorted.insert(k, x));
        assert forall|j: int| 0 <= j < k implies !precedes(rank(x), rank(sorted[j]), descending) by {
            if j < k - 1 {
                // sorted[j] does not come after sorted.last(), which does
                // not come after x
                assert(!precedes(rank(sorted[k - 1]), rank(sorted[j]), descending));
            }
        }
        lemma_inserted_ordered(sorted, x, rank, descending, k);
    }
}

proof fn lemma_inserted_ordered<T>(
    sorted: Seq<T>,
    x: T,
    rank: spec_fn(T) -> Rank,
    descending: bool,
    k: int,
)
    requires
        ordered(sorted, rank, descending),
        0 <= k <= sorted.len(),
        forall|j: int| k <= j < sorted.len() ==> precedes(rank(x), rank(sorted[j]), descending),
        forall|j: int| 0 <= j < k ==> !precedes(rank(x), rank(sorted[j]), descending),
    ensures
        ordered(sorted.insert(k, x), rank, descending),
{
    let out = sorted.insert(k, x);
    assert forall|i: int, j: int| 0 <= i < j < out.len() implies !precedes(
        rank(out[j]),
        rank(out[i]),
        descending,
    ) by {
        if j == k {
            assert(out[i] == sorted[i]);
        } else if i == k {
            assert(out[j] == sorted[j - 1]);
            assert(precedes(rank(x), rank(sorted[j - 1]), descending));
        } else {
            let a = if i < k {
                i
            } else {
                i - 1
            };
            let b = if j < k {
                j
            } else {
                j - 1
            };
            assert(out[i] == sorted[a] && out[j] == sorted[b]);
        }
    }
}

/// Sorting gives an ordered sequence.
pub proof fn lemma_stable_sort_ordered<T>(v: Seq<T>, rank: spec_fn(T) -> Rank, descending: bool)
    ensures
        ordered(stable_sort(v, rank, descending), rank, descending),
        stable_sort(v, rank, descending).len() == v.len(),
    decreases v.len(),
{
    if v.len() > 0 {
        lemma_stable_sort_ordered(v.drop_last(), rank, descending);
        lemma_insert_sorted(stable_sort(v.drop_last(), rank, descending), v.last(), rank, descending);
    }
}


/// Sorting is a rearrangement: it loses no item, adds none and repeats
/// none.
pub proof fn lemma_stable_sort_permutes<T>(v: Seq<T>, rank: spec_fn(T) -> Rank, descending: bool)
    ensures
        stable_sort(v, rank, descending).to_multiset() == v.to_multiset(),
    decreases v.len(),
{
    if v.len() > 0 {
        let front = v.drop_last();
        let sorted = stable_sort(front, rank, descending);
        lemma_stable_sort_permutes(front, rank, descending);
        lemma_stable_sort_ordered(front, rank, descending);
        lemma_insert_sorted(sorted, v.last(), rank, descending);
        let k = choose|k: int|
            0 <= k <= sorted.len() && #[trigger] sorted.insert(k, v.last()) == insert_sorted(
                sorted,
                v.last(),
                rank,
                descending,
            ) && (forall|j: int|
                k <= j < sorted.len() ==> precedes(rank(v.last()), rank(sorted[j]), descending))
                && (forall|j: int|
                0 <= j < k ==> !precedes(rank(v.last()), rank(sorted[j]), descending));
        vstd::seq_lib::to_multiset_insert(sorted, k, v.last());
        vstd::seq_lib::to_multiset_build(front, v.last());
        assert(front.push(v.last()) =~= v);
        assert(stable_sort(v, rank, descending).to_multiset() =~= v.to_multiset());
    } else {
        assert(v =~= Seq::empty());
    }
}

/// The test whether an item has rank `r`.
pub open spec fn of_rank<T>(rank: spec_fn(T) -> Rank, r: Rank) -> spec_fn(T) -> bool {
    |x: T| rank(x) == r
}

/// Sorting is stable: the items of any one rank stand in the sorted
/// sequence in the order in which they stand in the input.
pub proof fn lemma_stable_sort_keeps_order<T>(
    v: Seq<T>,
    rank: spec_fn(T) -> Rank,
    descending: bool,
    r: Rank,
)
    ensures
        stable_sort(v, rank, descending).filter(of_rank(rank, r)) == v.filter(of_rank(rank, r)),
    decreases v.len(),
{
    let same = of_rank(rank, r);
    if v.len() > 0 {
        let front = v.drop_last();
        let x = v.last();
        let sorted = stable_sort(front, rank, descending);
        lemma_stable_sort_keeps_order(front, rank, descending, r);
        lemma_stable_sort_ordered(front, rank, descending);
        lemma_insert_sorted(sorted, x, rank, descending);
        let k = choose|k: int|
            0 <= k <= sorted.len() && #[trigger] sorted.insert(k, x) == insert_sorted(
                sorted,
                x,
                rank,
                descending,
            ) && (forall|j: int|
                k <= j < sorted.len() ==> precedes(rank(x), rank(sorted[j]), descending)) && (
            forall|j: int| 0 <= j < k ==> !precedes(rank(x), rank(sorted[j]), descending));
        let head = sorted.subrange(0, k);
        let tail = sorted.subrange(k, sorted.len() as int);
        assert(sorted.insert(k, x) == head.push(x) + tail);
        assert(sorted =~= head + tail);
        Seq::filter_distributes_over_add(head.push(x), tail, same);
        Seq::filter_distributes_over_add(head, tail, same);
        head.lemma_filter_push(x, same);
        front.lemma_filter_push(x, same);
        assert(front.push(x) =~= v);
        if same(x) {
            assert(tail.all(|e: T| !same(e))) by {
                assert forall|j: int| 0 <= j < tail.len() implies !same(#[trigger] tail[j]) by {
                    assert(tail[j] == sorted[k + j]);
                    assert(precedes(rank(x), rank(sorted[k + j]), descending));
                }
            }
            tail.lemma_all_neg_filter_empty(same);
            assert(tail.filter(same) =~= Seq::empty());
            assert(head.filter(same).push(x) + Seq::<T>::empty() =~= head.filter(same).push(x));
            assert(head.filter(same) + Seq::<T>::empty() =~= head.filter(same));
        }
    }
}

} // verus!
