//! General facts about the extremal collectors: which item survives a bucket,
//! for every comparison and for one that orders the items, and how the
//! selection that verdicts bring about relates to the survivors.

use std::cmp::Ordering;
use vstd::prelude::*;
use crate::model::{
    extremal_by, lemma_bucket_of_none, lemma_extremal_by_push, lemma_select_push, select,
    survivor,
};

verus! {

/// The survivor of a bucket is one of its items.
pub proof fn lemma_survivor_in_bucket<T>(
    bucket: Seq<T>,
    compare: spec_fn(T, T) -> Ordering,
    wanted: Ordering,
)
    requires
        bucket.len() > 0,
    ensures
        bucket.contains(survivor(bucket, compare, wanted)),
    decreases bucket.len(),
{
    if bucket.len() <= 1 {
        assert(bucket[0] == survivor(bucket, compare, wanted));
    } else {
        let front = bucket.drop_last();
        lemma_survivor_in_bucket(front, compare, wanted);
        let best = survivor(front, compare, wanted);
        let i = choose|i: int| 0 <= i < front.len() && front[i] == best;
        assert(bucket[i] == best);
        assert(bucket[bucket.len() - 1] == bucket.last());
    }
}

/// First arrival wins: where no later item of a bucket compares as wanted
/// against the first, the first item survives.
pub proof fn lemma_first_survives<T>(
    bucket: Seq<T>,
    compare: spec_fn(T, T) -> Ordering,
    wanted: Ordering,
)
    requires
        bucket.len() > 0,
        forall|i: int| 0 < i < bucket.len() ==> compare(#[trigger] bucket[i], bucket[0]) != wanted,
    ensures
        survivor(bucket, compare, wanted) == bucket[0],
    decreases bucket.len(),
{
    if bucket.len() > 1 {
        let front = bucket.drop_last();
        assert forall|i: int| 0 < i < front.len() implies compare(#[trigger] front[i], front[0])
            != wanted by {
            assert(front[i] == bucket[i]);
        }
        lemma_first_survives(front, compare, wanted);
        assert(bucket.last() == bucket[bucket.len() - 1]);
    }
}

/// The tie-break: of two items with one key that compare as equal, both the
/// greatest and the least is the earlier one.
pub proof fn lemma_tie_keeps_earlier<K, T>(
    k: K,
    first: T,
    second: T,
    compare: spec_fn(T, T) -> Ordering,
)
    requires
        compare(first, second) == Ordering::Equal,
        compare(second, first) == Ordering::Equal,
    ensures
        extremal_by(seq![(k, first), (k, second)], compare, Ordering::Greater) == Map::<
            K,
            T,
        >::empty().insert(k, first),
        extremal_by(seq![(k, first), (k, second)], compare, Ordering::Less) == Map::<
            K,
            T,
        >::empty().insert(k, first),
{
    let none = Seq::<(K, T)>::empty();
    let entries = seq![(k, first), (k, second)];
    let single = Map::<K, T>::empty().insert(k, first);
    assert(entries =~= none.push((k, first)).push((k, second)));
    assert forall|j: K|
        extremal_by(none, compare, Ordering::Greater).contains_key(j) == Map::<K, T>::empty().contains_key(j) by {
        lemma_bucket_of_none::<K, T>(j);
    }
    assert forall|j: K|
        extremal_by(none, compare, Ordering::Less).contains_key(j) == Map::<K, T>::empty().contains_key(j) by {
        lemma_bucket_of_none::<K, T>(j);
    }
    assert(extremal_by(none, compare, Ordering::Greater) =~= Map::<K, T>::empty());
    assert(extremal_by(none, compare, Ordering::Less) =~= Map::<K, T>::empty());
    lemma_extremal_by_push(none, (k, first), compare, Ordering::Greater);
    lemma_extremal_by_push(none, (k, first), compare, Ordering::Less);
    lemma_extremal_by_push(none.push((k, first)), (k, second), compare, Ordering::Greater);
    lemma_extremal_by_push(none.push((k, first)), (k, second), compare, Ordering::Less);
}

/// `a` beats `b`: it compares as wanted against it.
pub open spec fn beats<T>(compare: spec_fn(T, T) -> Ordering, wanted: Ordering, a: T, b: T) -> bool {
    compare(a, b) == wanted
}

/// Beating is a strict weak order: no two items beat each other, beating is
/// transitive, and so is not beating.
#[verifier::opaque]
pub open spec fn strict_weak_order<T>(compare: spec_fn(T, T) -> Ordering, wanted: Ordering) -> bool {
    &&& forall|a: T, b: T| #[trigger] beats(compare, wanted, a, b) ==> !beats(compare, wanted, b, a)
    &&& forall|a: T, b: T, c: T|
        #[trigger] beats(compare, wanted, a, b) && #[trigger] beats(compare, wanted, b, c)
            ==> beats(compare, wanted, a, c)
    &&& forall|a: T, b: T, c: T|
        !#[trigger] beats(compare, wanted, a, b) && !#[trigger] beats(compare, wanted, b, c)
            ==> !beats(compare, wanted, a, c)
}

/// Under a strict weak order no two items beat each other.
proof fn lemma_beats_one_way<T>(compare: spec_fn(T, T) -> Ordering, wanted: Ordering, a: T, b: T)
    requires
        strict_weak_order(compare, wanted),
        beats(compare, wanted, a, b),
    ensures
        !beats(compare, wanted, b, a),
{
    reveal(strict_weak_order);
}

/// Under a strict weak order beating is transitive.
proof fn lemma_beats_chain<T>(
    compare: spec_fn(T, T) -> Ordering,
    wanted: Ordering,
    a: T,
    b: T,
    c: T,
)
    requires
        strict_weak_order(compare, wanted),
        beats(compare, wanted, a, b),
        beats(compare, wanted, b, c),
    ensures
        beats(compare, wanted, a, c),
{
    reveal(strict_weak_order);
}

/// Under a strict weak order not beating is transitive.
proof fn lemma_not_beats_chain<T>(
    compare: spec_fn(T, T) -> Ordering,
    wanted: Ordering,
    a: T,
    b: T,
    c: T,
)
    requires
        strict_weak_order(compare, wanted),
        !beats(compare, wanted, a, b),
        !beats(compare, wanted, b, c),
    ensures
        !beats(compare, wanted, a, c),
{
    reveal(strict_weak_order);
}

/// Under a strict weak order the survivor is the earliest extremal item: it
/// stands at a place `at` of the bucket before which it beats every item, and
/// no item of the bucket beats it.
pub proof fn lemma_survivor_is_first_extremal<T>(
    bucket: Seq<T>,
    compare: spec_fn(T, T) -> Ordering,
    wanted: Ordering,
) -> (at: int)
    requires
        bucket.len() > 0,
        strict_weak_order(compare, wanted),
    ensures
        0 <= at < bucket.len(),
        bucket[at] == survivor(bucket, compare, wanted),
        forall|i: int| 0 <= i < at ==> beats(compare, wanted, bucket[at], #[trigger] bucket[i]),
        forall|i: int|
            0 <= i < bucket.len() ==> !beats(compare, wanted, #[trigger] bucket[i], bucket[at]),
    decreases bucket.len(),
{
    if bucket.len() <= 1 {
        if beats(compare, wanted, bucket[0], bucket[0]) {
            lemma_beats_one_way(compare, wanted, bucket[0], bucket[0]);
        }
        0
    } else {
        let front = bucket.drop_last();
        let last = bucket.last();
        let front_at = lemma_survivor_is_first_extremal(front, compare, wanted);
        let best = front[front_at];
        if beats(compare, wanted, last, best) {
            let at = bucket.len() - 1;
            assert forall|i: int| 0 <= i < at implies beats(
                compare,
                wanted,
                bucket[at],
                #[trigger] bucket[i],
            ) by {
                assert(bucket[i] == front[i]);
                if i < front_at {
                    lemma_beats_chain(compare, wanted, last, best, front[i]);
                } else if i > front_at {
                    if !beats(compare, wanted, last, front[i]) {
                        lemma_not_beats_chain(compare, wanted, last, front[i], best);
                    }
                }
            }
            assert forall|i: int| 0 <= i < bucket.len() implies !beats(
                compare,
                wanted,
                #[trigger] bucket[i],
                bucket[at],
            ) by {
                if i < at {
                    assert(bucket[i] == front[i]);
                    if beats(compare, wanted, bucket[i], last) {
                        lemma_beats_chain(compare, wanted, bucket[i], last, best);
                    }
                } else if beats(compare, wanted, last, last) {
                    lemma_beats_one_way(compare, wanted, last, last);
                }
            }
            at
        } else {
            assert forall|i: int| 0 <= i < bucket.len() implies !beats(
                compare,
                wanted,
                #[trigger] bucket[i],
                bucket[front_at],
            ) by {
                if i < front.len() {
                    assert(bucket[i] == front[i]);
                }
            }
            assert forall|i: int| 0 <= i < front_at implies beats(
                compare,
                wanted,
                bucket[front_at],
                #[trigger] bucket[i],
            ) by {
                assert(bucket[i] == front[i]);
            }
            front_at
        }
    }
}

/// What a selection stores under a key is an entry under that key.
pub proof fn lemma_select_stores_entry<K, T>(
    entries: Seq<(K, T)>,
    verdicts: Seq<Ordering>,
    wanted: Ordering,
    k: K,
) -> (at: int)
    requires
        select(entries, verdicts, wanted).contains_key(k),
    ensures
        0 <= at < entries.len(),
        entries[at] == (k, select(entries, verdicts, wanted)[k]),
    decreases entries.len(),
{
    let front = entries.drop_last();
    let entry = entries.last();
    let before = select(front, verdicts, wanted);
    if entry.0 == k && !(before.contains_key(k) && verdicts[entries.len() - 1] != wanted) {
        entries.len() - 1
    } else {
        lemma_select_stores_entry(front, verdicts, wanted, k)
    }
}

/// The verdict of entry `i` is what `compare` gives for the entry's item and
/// the item then stored under its key.
pub open spec fn follows_at<K, T>(
    verdicts: Seq<Ordering>,
    entries: Seq<(K, T)>,
    compare: spec_fn(T, T) -> Ordering,
    wanted: Ordering,
    i: int,
) -> bool {
    let stored = select(entries.take(i), verdicts, wanted);
    stored.contains_key(entries[i].0) ==> verdicts[i] == compare(
        entries[i].1,
        stored[entries[i].0],
    )
}

/// The verdicts are those of the function `compare`.
pub open spec fn follows<K, T>(
    verdicts: Seq<Ordering>,
    entries: Seq<(K, T)>,
    compare: spec_fn(T, T) -> Ordering,
    wanted: Ordering,
) -> bool {
    forall|i: int|
        0 <= i < entries.len() ==> #[trigger] follows_at(verdicts, entries, compare, wanted, i)
}

/// Where the verdicts are those of a function, the selection among the first
/// `n` entries stores the survivors of their buckets.
proof fn lemma_select_prefix_is_extremal<K, T>(
    entries: Seq<(K, T)>,
    verdicts: Seq<Ordering>,
    compare: spec_fn(T, T) -> Ordering,
    wanted: Ordering,
    n: int,
)
    requires
        0 <= n <= entries.len(),
        follows(verdicts, entries, compare, wanted),
    ensures
        select(entries.take(n), verdicts, wanted) == extremal_by(entries.take(n), compare, wanted),
    decreases n,
{
    if n == 0 {
        assert(entries.take(0) =~= Seq::empty());
        assert forall|j: K|
            extremal_by(Seq::<(K, T)>::empty(), compare, wanted).contains_key(j) == Map::<
                K,
                T,
            >::empty().contains_key(j) by {
            lemma_bucket_of_none::<K, T>(j);
        }
        assert(extremal_by(Seq::<(K, T)>::empty(), compare, wanted) =~= Map::<K, T>::empty());
    } else {
        let front = entries.take(n - 1);
        let entry = entries[n - 1];
        lemma_select_prefix_is_extremal(entries, verdicts, compare, wanted, n - 1);
        assert(entries.take(n) =~= front.push(entry));
        assert(follows_at(verdicts, entries, compare, wanted, n - 1));
        lemma_select_push(front, entry, verdicts, wanted);
        lemma_extremal_by_push(front, entry, compare, wanted);
    }
}

/// Where the verdicts are those of a function, the selection that they bring
/// about stores, per key that occurs, the survivor of its bucket.
pub proof fn lemma_select_is_extremal<K, T>(
    entries: Seq<(K, T)>,
    verdicts: Seq<Ordering>,
    compare: spec_fn(T, T) -> Ordering,
    wanted: Ordering,
)
    requires
        follows(verdicts, entries, compare, wanted),
    ensures
        select(entries, verdicts, wanted) == extremal_by(entries, compare, wanted),
{
    lemma_select_prefix_is_extremal(entries, verdicts, compare, wanted, entries.len() - 0);
    assert(entries.take(entries.len() - 0) =~= entries);
}

/// The tie-break, by verdicts: of two items with one key of which the later
/// gets the verdict `Equal`, the earlier one is selected, as the greatest and
/// as the least.
pub proof fn lemma_tie_selects_earlier<K, T>(k: K, first: T, second: T, verdicts: Seq<Ordering>)
    requires
        verdicts.len() == 2,
        verdicts[1] == Ordering::Equal,
    ensures
        select(seq![(k, first), (k, second)], verdicts, Ordering::Greater) == Map::<
            K,
            T,
        >::empty().insert(k, first),
        select(seq![(k, first), (k, second)], verdicts, Ordering::Less) == Map::<
            K,
            T,
        >::empty().insert(k, first),
{
    let none = Seq::<(K, T)>::empty();
    assert(seq![(k, first), (k, second)] =~= none.push((k, first)).push((k, second)));
    lemma_select_push(none, (k, first), verdicts, Ordering::Greater);
    lemma_select_push(none, (k, first), verdicts, Ordering::Less);
    lemma_select_push(none.push((k, first)), (k, second), verdicts, Ordering::Greater);
    lemma_select_push(none.push((k, first)), (k, second), verdicts, Ordering::Less);
}

} // verus!
