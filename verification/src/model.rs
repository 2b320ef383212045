//! The mathematical model: what each collector computes.
//!
//! The model speaks of *entries*: the items in their order of arrival, each
//! paired with its key (or, for sums, each item's value paired with the item's
//! key). The *bucket* of a key is what the entries hold under that key, in
//! order; every collector is a map from the keys that occur to something made
//! of their buckets.

use std::cmp::Ordering;
use std::ops::Add;
use vstd::prelude::*;
use vstd::std_specs::ops::AddSpec;

verus! {

/// The entries of `items` under the key function `key`: each item paired with
/// its key.
pub open spec fn keyed_by<T, K>(items: Seq<T>, key: spec_fn(T) -> K) -> Seq<(K, T)> {
    items.map_values(|item: T| (key(item), item))
}

/// The entries of `items` for summing under the functions `key` and `value`:
/// each item's value paired with the item's key.
pub open spec fn valued_by<T, K, V>(
    items: Seq<T>,
    key: spec_fn(T) -> K,
    value: spec_fn(T) -> V,
) -> Seq<(K, V)> {
    items.map_values(|item: T| (key(item), value(item)))
}

/// The predicate "the key of this entry is `k`".
pub open spec fn has_key<K, T>(k: K) -> spec_fn((K, T)) -> bool {
    |entry: (K, T)| entry.0 == k
}

/// The bucket of `k`: what the entries hold under the key `k`, in their order
/// of arrival.
pub open spec fn bucket<K, T>(entries: Seq<(K, T)>, k: K) -> Seq<T> {
    entries.filter(has_key(k)).map_values(|entry: (K, T)| entry.1)
}

/// Per key that occurs, its bucket.
pub open spec fn group_by<K, T>(entries: Seq<(K, T)>) -> Map<K, Seq<T>> {
    Map::new(|k: K| bucket(entries, k).len() > 0, |k: K| bucket(entries, k))
}

/// Per key that occurs, the set of what its bucket holds.
pub open spec fn group_by_as_set<K, T>(entries: Seq<(K, T)>) -> Map<K, Set<T>> {
    Map::new(|k: K| bucket(entries, k).len() > 0, |k: K| bucket(entries, k).to_set())
}

/// Per key that occurs, the length of its bucket.
pub open spec fn count_by<K, T>(entries: Seq<(K, T)>) -> Map<K, nat> {
    Map::new(|k: K| bucket(entries, k).len() > 0, |k: K| bucket(entries, k).len())
}

/// The values added up from left to right, starting from `zero`.
pub open spec fn sum_of<V: Add<Output = V>>(values: Seq<V>, zero: V) -> V {
    values.fold_left(zero, |sum: V, v: V| sum.add_spec(v))
}

/// Per key that occurs, the sum of the values in its bucket.
pub open spec fn sum_by<K, V: Add<Output = V>>(entries: Seq<(K, V)>, zero: V) -> Map<K, V> {
    Map::new(|k: K| bucket(entries, k).len() > 0, |k: K| sum_of(bucket(entries, k), zero))
}

/// The addition that summing makes for the last entry is one that `V` allows:
/// the sum that the entry's key has reached may take the entry's value.
pub open spec fn last_sum_allowed<K, V: Add<Output = V>>(entries: Seq<(K, V)>, zero: V) -> bool {
    sum_of(bucket(entries.drop_last(), entries.last().0), zero).add_req(entries.last().1)
}

/// Every addition that summing the entries makes is one that `V` allows.
pub open spec fn sums_allowed<K, V: Add<Output = V>>(entries: Seq<(K, V)>, zero: V) -> bool {
    forall|n: int| 0 < n <= entries.len() ==> last_sum_allowed(#[trigger] entries.take(n), zero)
}

/// The item that survives a bucket: the first item is the first best, and a
/// later item replaces the best exactly when `compare(item, best)` is `wanted`.
pub open spec fn survivor<T>(
    bucket: Seq<T>,
    compare: spec_fn(T, T) -> Ordering,
    wanted: Ordering,
) -> T
    decreases bucket.len(),
{
    if bucket.len() <= 1 {
        bucket[0]
    } else {
        let best = survivor(bucket.drop_last(), compare, wanted);
        if compare(bucket.last(), best) == wanted {
            bucket.last()
        } else {
            best
        }
    }
}

/// Per key that occurs, the survivor of its bucket.
pub open spec fn extremal_by<K, T>(
    entries: Seq<(K, T)>,
    compare: spec_fn(T, T) -> Ordering,
    wanted: Ordering,
) -> Map<K, T> {
    Map::new(
        |k: K| bucket(entries, k).len() > 0,
        |k: K| survivor(bucket(entries, k), compare, wanted),
    )
}

/// The selection that the verdicts bring about, where `verdicts[i]` is what
/// comparing the item of entry `i` against the item then stored under its key
/// gave: the first item of a key is stored, and a later one replaces the
/// stored one exactly when its verdict is `wanted`.
pub open spec fn select<K, T>(
    entries: Seq<(K, T)>,
    verdicts: Seq<Ordering>,
    wanted: Ordering,
) -> Map<K, T>
    decreases entries.len(),
{
    if entries.len() == 0 {
        Map::empty()
    } else {
        let before = select(entries.drop_last(), verdicts, wanted);
        let entry = entries.last();
        if before.contains_key(entry.0) && verdicts[entries.len() - 1] != wanted {
            before
        } else {
            before.insert(entry.0, entry.1)
        }
    }
}

/// How a bucket changes when one more entry arrives.
pub proof fn lemma_bucket_push<K, T>(entries: Seq<(K, T)>, entry: (K, T), k: K)
    ensures
        bucket(entries.push(entry), k) == if entry.0 == k {
            bucket(entries, k).push(entry.1)
        } else {
            bucket(entries, k)
        },
{
    entries.lemma_filter_push(entry, has_key(k));
    if entry.0 == k {
        assert(bucket(entries.push(entry), k) =~= bucket(entries, k).push(entry.1));
    }
}

/// No entries, no buckets.
pub proof fn lemma_bucket_of_none<K, T>(k: K)
    ensures
        bucket(Seq::<(K, T)>::empty(), k) == Seq::<T>::empty(),
{
    Seq::<(K, T)>::empty().lemma_filter_len(has_key(k));
    assert(bucket(Seq::<(K, T)>::empty(), k) =~= Seq::<T>::empty());
}

/// How the groups change when one more entry arrives.
pub proof fn lemma_group_by_push<K, T>(entries: Seq<(K, T)>, entry: (K, T))
    ensures
        group_by(entries.push(entry)) == group_by(entries).insert(
            entry.0,
            bucket(entries, entry.0).push(entry.1),
        ),
{
    let after = group_by(entries.push(entry));
    let expected = group_by(entries).insert(entry.0, bucket(entries, entry.0).push(entry.1));
    assert forall|j: K| after.contains_key(j) == expected.contains_key(j) by {
        lemma_bucket_push(entries, entry, j);
    }
    assert forall|j: K| after.contains_key(j) implies after[j] == expected[j] by {
        lemma_bucket_push(entries, entry, j);
    }
    assert(after =~= expected);
}

/// The set of a sequence with one more item.
pub proof fn lemma_to_set_push<T>(items: Seq<T>, item: T)
    ensures
        items.push(item).to_set() == items.to_set().insert(item),
{
    let longer = items.push(item);
    assert forall|x: T| longer.to_set().contains(x) == items.to_set().insert(item).contains(x) by {
        if longer.contains(x) {
            let i = choose|i: int| 0 <= i < longer.len() && longer[i] == x;
            if i < items.len() {
                assert(items[i] == x);
            }
        }
        if items.contains(x) {
            let i = choose|i: int| 0 <= i < items.len() && items[i] == x;
            assert(longer[i] == x);
        }
        if x == item {
            assert(longer[items.len() as int] == x);
        }
    }
    assert(longer.to_set() =~= items.to_set().insert(item));
}

/// How the groups, as sets, change when one more entry arrives.
pub proof fn lemma_group_by_as_set_push<K, T>(entries: Seq<(K, T)>, entry: (K, T))
    ensures
        group_by_as_set(entries.push(entry)) == group_by_as_set(entries).insert(
            entry.0,
            bucket(entries, entry.0).to_set().insert(entry.1),
        ),
{
    let after = group_by_as_set(entries.push(entry));
    let expected = group_by_as_set(entries).insert(
        entry.0,
        bucket(entries, entry.0).to_set().insert(entry.1),
    );
    assert forall|j: K| after.contains_key(j) == expected.contains_key(j) by {
        lemma_bucket_push(entries, entry, j);
    }
    assert forall|j: K| after.contains_key(j) implies after[j] == expected[j] by {
        lemma_bucket_push(entries, entry, j);
        if j == entry.0 {
            lemma_to_set_push(bucket(entries, j), entry.1);
        }
    }
    assert(after =~= expected);
}

/// How the counts change when one more entry arrives.
pub proof fn lemma_count_by_push<K, T>(entries: Seq<(K, T)>, entry: (K, T))
    ensures
        count_by(entries.push(entry)) == count_by(entries).insert(
            entry.0,
            bucket(entries, entry.0).len() + 1,
        ),
{
    let after = count_by(entries.push(entry));
    let expected = count_by(entries).insert(entry.0, bucket(entries, entry.0).len() + 1);
    assert forall|j: K| after.contains_key(j) == expected.contains_key(j) by {
        lemma_bucket_push(entries, entry, j);
    }
    assert forall|j: K| after.contains_key(j) implies after[j] == expected[j] by {
        lemma_bucket_push(entries, entry, j);
    }
    assert(after =~= expected);
}

/// How the sums change when one more entry arrives.
pub proof fn lemma_sum_by_push<K, V: Add<Output = V>>(entries: Seq<(K, V)>, entry: (K, V), zero: V)
    ensures
        sum_by(entries.push(entry), zero) == sum_by(entries, zero).insert(
            entry.0,
            sum_of(bucket(entries, entry.0), zero).add_spec(entry.1),
        ),
{
    let after = sum_by(entries.push(entry), zero);
    let expected = sum_by(entries, zero).insert(
        entry.0,
        sum_of(bucket(entries, entry.0), zero).add_spec(entry.1),
    );
    assert forall|j: K| after.contains_key(j) == expected.contains_key(j) by {
        lemma_bucket_push(entries, entry, j);
    }
    assert forall|j: K| after.contains_key(j) implies after[j] == expected[j] by {
        lemma_bucket_push(entries, entry, j);
        if j == entry.0 {
            let values = bucket(entries, j).push(entry.1);
            assert(values.drop_last() =~= bucket(entries, j));
        }
    }
    assert(after =~= expected);
}

/// How the survivors change when one more entry arrives.
pub proof fn lemma_extremal_by_push<K, T>(
    entries: Seq<(K, T)>,
    entry: (K, T),
    compare: spec_fn(T, T) -> Ordering,
    wanted: Ordering,
)
    ensures
        extremal_by(entries.push(entry), compare, wanted) == {
            let before = extremal_by(entries, compare, wanted);
            if before.contains_key(entry.0) && compare(entry.1, before[entry.0]) != wanted {
                before
            } else {
                before.insert(entry.0, entry.1)
            }
        },
{
    let before = extremal_by(entries, compare, wanted);
    let after = extremal_by(entries.push(entry), compare, wanted);
    let expected = if before.contains_key(entry.0) && compare(entry.1, before[entry.0])
        != wanted {
        before
    } else {
        before.insert(entry.0, entry.1)
    };
    assert forall|j: K| after.contains_key(j) == expected.contains_key(j) by {
        lemma_bucket_push(entries, entry, j);
    }
    assert forall|j: K| after.contains_key(j) implies after[j] == expected[j] by {
        lemma_bucket_push(entries, entry, j);
        if j == entry.0 {
            let old_bucket = bucket(entries, j);
            assert(old_bucket.push(entry.1).drop_last() =~= old_bucket);
        }
    }
    assert(after =~= expected);
}

/// How the selection changes when one more entry arrives.
pub proof fn lemma_select_push<K, T>(
    entries: Seq<(K, T)>,
    entry: (K, T),
    verdicts: Seq<Ordering>,
    wanted: Ordering,
)
    ensures
        select(entries.push(entry), verdicts, wanted) == {
            let before = select(entries, verdicts, wanted);
            if before.contains_key(entry.0) && verdicts[entries.push(entry).len() - 1] != wanted {
                before
            } else {
                before.insert(entry.0, entry.1)
            }
        },
{
    assert(entries.push(entry).drop_last() =~= entries);
}

/// The selection among some entries looks at the verdicts of these entries
/// only.
pub proof fn lemma_select_ignores_later<K, T>(
    entries: Seq<(K, T)>,
    verdicts: Seq<Ordering>,
    longer: Seq<Ordering>,
    wanted: Ordering,
)
    requires
        entries.len() <= verdicts.len() <= longer.len(),
        forall|i: int| 0 <= i < entries.len() ==> verdicts[i] == longer[i],
    ensures
        select(entries, verdicts, wanted) == select(entries, longer, wanted),
    decreases entries.len(),
{
    if entries.len() > 0 {
        lemma_select_ignores_later(entries.drop_last(), verdicts, longer, wanted);
    }
}

} // verus!
