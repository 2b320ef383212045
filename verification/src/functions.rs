//! The results for closures that compute functions.
//!
//! Where a closure's contract fixes what it returns on each item, the closure
//! computes a function of the item, and what a collector returns is the
//! model's map for that function.

use std::cmp::Ordering;
use std::ops::Add;
use vstd::prelude::*;
use crate::contract::{
    additions_allowed, counted, default_is, finishes, grouped, grouped_as_sets, judges,
    judges_at, selected, selected_and_finished, summable, summed, yields,
};
use crate::model::{
    count_by, extremal_by, group_by, group_by_as_set, keyed_by, last_sum_allowed,
    lemma_bucket_of_none, select, sum_by, sums_allowed, valued_by,
};
use crate::theory::lemma_item_in_one_group;
use crate::order::{follows_at, lemma_select_is_extremal, lemma_select_stores_entry};

verus! {

/// `image` is the function that the closure `f` computes on `items`: whatever
/// `f` returns on one of them is what `image` gives for it.
pub open spec fn computes<T, R, F: FnMut(&T) -> R>(
    f: F,
    items: Seq<T>,
    image: spec_fn(T) -> R,
) -> bool {
    forall|i: int, r: R|
        0 <= i < items.len() && #[trigger] call_ensures(f, (&items[i],), r) ==> r == image(
            items[i],
        )
}

/// `order` is the function that the closure `comparator` computes when a later
/// one of `items` is compared against an earlier one.
pub open spec fn compares<T, C: FnMut(&T, &T) -> Ordering>(
    comparator: C,
    items: Seq<T>,
    order: spec_fn(T, T) -> Ordering,
) -> bool {
    forall|i: int, j: int, o: Ordering|
        0 <= j < i < items.len() && #[trigger] call_ensures(
            comparator,
            (&items[i], &items[j]),
            o,
        ) ==> o == order(items[i], items[j])
}

/// What a closure that computes a function returns on the items are the
/// images of the items.
pub proof fn lemma_yields_images<T, R, F: FnMut(&T) -> R>(
    f: F,
    items: Seq<T>,
    outs: Seq<R>,
    image: spec_fn(T) -> R,
)
    requires
        yields(f, items, outs),
        computes(f, items, image),
    ensures
        outs == items.map_values(image),
{
    assert(outs =~= items.map_values(image));
}

/// Grouping by a closure that computes the function `kf` groups by `kf`.
pub proof fn lemma_grouped_by<T, K, F: FnMut(&T) -> K>(
    key: F,
    items: Seq<T>,
    groups: Map<K, Seq<T>>,
    kf: spec_fn(T) -> K,
)
    requires
        grouped(key, items, groups),
        computes(key, items, kf),
    ensures
        groups == group_by(keyed_by(items, kf)),
{
    let keys = choose|keys: Seq<K>| #[trigger]
        yields(key, items, keys) && groups == group_by(keys.zip_with(items));
    lemma_yields_images(key, items, keys, kf);
    assert(keys.zip_with(items) =~= keyed_by(items, kf));
}

/// Under a key function each item is in the group of its own key and in no
/// other: an item is in the group of `k` exactly when it is one of the items
/// and `k` is its key.
pub proof fn lemma_item_in_group_of_its_key<T, K>(
    items: Seq<T>,
    kf: spec_fn(T) -> K,
    k: K,
    item: T,
)
    ensures
        group_by(keyed_by(items, kf)).contains_key(k) && group_by(keyed_by(items, kf))[k].contains(
            item,
        ) <==> items.contains(item) && kf(item) == k,
{
    let entries = keyed_by(items, kf);
    lemma_item_in_one_group(entries, k, item);
    if entries.contains((k, item)) {
        let i = choose|i: int| 0 <= i < entries.len() && entries[i] == (k, item);
        assert(items[i] == item);
    }
    if items.contains(item) && kf(item) == k {
        let i = choose|i: int| 0 <= i < items.len() && items[i] == item;
        assert(entries[i] == (k, item));
    }
}

/// Grouping into sets by a closure that computes the function `kf` groups by
/// `kf`.
pub proof fn lemma_grouped_as_sets_by<T, K, F: FnMut(&T) -> K>(
    key: F,
    items: Seq<T>,
    groups: Map<K, Set<T>>,
    kf: spec_fn(T) -> K,
)
    requires
        grouped_as_sets(key, items, groups),
        computes(key, items, kf),
    ensures
        groups == group_by_as_set(keyed_by(items, kf)),
{
    let keys = choose|keys: Seq<K>| #[trigger]
        yields(key, items, keys) && groups == group_by_as_set(keys.zip_with(items));
    lemma_yields_images(key, items, keys, kf);
    assert(keys.zip_with(items) =~= keyed_by(items, kf));
}

/// Counting by a closure that computes the function `kf` counts by `kf`.
pub proof fn lemma_counted_by<T, K, F: FnMut(&T) -> K>(
    key: F,
    items: Seq<T>,
    counts: Map<K, nat>,
    kf: spec_fn(T) -> K,
)
    requires
        counted(key, items, counts),
        computes(key, items, kf),
    ensures
        counts == count_by(keyed_by(items, kf)),
{
    let keys = choose|keys: Seq<K>| #[trigger]
        yields(key, items, keys) && counts == count_by(keys.zip_with(items));
    lemma_yields_images(key, items, keys, kf);
    assert(keys.zip_with(items) =~= keyed_by(items, kf));
}

/// Selecting by closures that compute the functions `kf` and `cf` keeps, per
/// key under `kf`, the survivor of its bucket under `cf`.
pub proof fn lemma_selected_by<T, K, F, C>(
    key: F,
    comparator: C,
    wanted: Ordering,
    items: Seq<T>,
    best: Map<K, T>,
    kf: spec_fn(T) -> K,
    cf: spec_fn(T, T) -> Ordering,
) where F: FnMut(&T) -> K, C: FnMut(&T, &T) -> Ordering
    requires
        selected(key, comparator, wanted, items, best),
        computes(key, items, kf),
        compares(comparator, items, cf),
    ensures
        best == extremal_by(keyed_by(items, kf), cf, wanted),
{
    let (keys, verdicts) = choose|keys: Seq<K>, verdicts: Seq<Ordering>|
        yields(key, items, keys) && #[trigger] judges(
            comparator,
            wanted,
            keys.zip_with(items),
            verdicts,
        ) && best == select(keys.zip_with(items), verdicts, wanted);
    lemma_yields_images(key, items, keys, kf);
    let entries = keyed_by(items, kf);
    assert(keys.zip_with(items) =~= entries);
    assert forall|i: int| 0 <= i < entries.len() implies #[trigger] follows_at(
        verdicts,
        entries,
        cf,
        wanted,
        i,
    ) by {
        let stored = select(entries.take(i), verdicts, wanted);
        let k = entries[i].0;
        assert(judges_at(comparator, wanted, entries, verdicts, i));
        if stored.contains_key(k) {
            let j = lemma_select_stores_entry(entries.take(i), verdicts, wanted, k);
            assert(entries.take(i)[j] == entries[j]);
            assert(stored[k] == items[j]);
            assert(entries[i].1 == items[i]);
            assert(call_ensures(comparator, (&items[i], &items[j]), verdicts[i]));
        }
    }
    lemma_select_is_extremal(entries, verdicts, cf, wanted);
}

/// Finishing with a closure that computes the function `ff` replaces each
/// stored item by its image under `ff`.
pub proof fn lemma_finishes_by<K, T, O, G: FnMut(&T) -> O>(
    finisher: G,
    best: Map<K, T>,
    finished: Map<K, O>,
    items: Seq<T>,
    ff: spec_fn(T) -> O,
)
    requires
        finishes(finisher, best, finished),
        forall|k: K| #[trigger] best.contains_key(k) ==> items.contains(best[k]),
        computes(finisher, items, ff),
    ensures
        finished == best.map_values(ff),
{
    assert forall|k: K| best.contains_key(k) implies finished[k] == ff(best[k]) by {
        let i = choose|i: int| 0 <= i < items.len() && items[i] == best[k];
        assert(call_ensures(finisher, (&items[i],), finished[k]));
    }
    assert(finished =~= best.map_values(ff));
}

/// Selecting and finishing by closures that compute the functions `kf`, `cf`
/// and `ff` keeps, per key under `kf`, the image under `ff` of the survivor of
/// its bucket under `cf`.
pub proof fn lemma_selected_and_finished_by<T, K, O, F, C, G>(
    key: F,
    comparator: C,
    finisher: G,
    wanted: Ordering,
    items: Seq<T>,
    finished: Map<K, O>,
    kf: spec_fn(T) -> K,
    cf: spec_fn(T, T) -> Ordering,
    ff: spec_fn(T) -> O,
) where F: FnMut(&T) -> K, C: FnMut(&T, &T) -> Ordering, G: FnMut(&T) -> O
    requires
        selected_and_finished(key, comparator, finisher, wanted, items, finished),
        computes(key, items, kf),
        compares(comparator, items, cf),
        computes(finisher, items, ff),
    ensures
        finished == extremal_by(keyed_by(items, kf), cf, wanted).map_values(ff),
{
    let best = choose|best: Map<K, T>| #[trigger]
        selected(key, comparator, wanted, items, best) && finishes(finisher, best, finished);
    lemma_selected_by(key, comparator, wanted, items, best, kf, cf);
    let (keys, verdicts) = choose|keys: Seq<K>, verdicts: Seq<Ordering>|
        yields(key, items, keys) && #[trigger] judges(
            comparator,
            wanted,
            keys.zip_with(items),
            verdicts,
        ) && best == select(keys.zip_with(items), verdicts, wanted);
    let entries = keys.zip_with(items);
    assert forall|k: K| #[trigger] best.contains_key(k) implies items.contains(best[k]) by {
        let j = lemma_select_stores_entry(entries, verdicts, wanted, k);
        assert(items[j] == best[k]);
    }
    lemma_finishes_by(finisher, best, finished, items, ff);
}

/// Items can be summed by closures that compute the functions `kf` and `vf`
/// where every addition of the values under `vf`, by key under `kf`, is one
/// that `V` allows.
pub proof fn lemma_summable_by<T, K, V, F, G>(
    key: F,
    value: G,
    items: Seq<T>,
    kf: spec_fn(T) -> K,
    vf: spec_fn(T) -> V,
    zero: V,
) where V: Default + Add<Output = V>, F: FnMut(&T) -> K, G: FnMut(&T) -> V
    requires
        computes(key, items, kf),
        computes(value, items, vf),
        default_is(zero),
        sums_allowed(valued_by(items, kf, vf), zero),
    ensures
        summable(key, value, items),
{
    let entries = valued_by(items, kf, vf);
    assert forall|n: int, keys: Seq<K>, values: Seq<V>|
        0 < n <= items.len() && #[trigger] yields(key, items.take(n), keys) && #[trigger] yields(
            value,
            items.take(n),
            values,
        ) implies last_sum_allowed(keys.zip_with(values), zero) by {
        assert forall|i: int| 0 <= i < n implies keys[i] == kf(items[i]) && values[i] == vf(
            items[i],
        ) by {
            assert(items.take(n)[i] == items[i]);
            assert(call_ensures(key, (&items[i],), keys[i]));
            assert(call_ensures(value, (&items[i],), values[i]));
        }
        assert(keys.zip_with(values) =~= entries.take(n));
    }
    assert(additions_allowed(key, value, items, zero));
}

/// Summing by closures that compute the functions `kf` and `vf` sums the
/// values under `vf` by key under `kf`, from the value on that `V::default()`
/// returns.
pub proof fn lemma_summed_by<T, K, V, F, G>(
    key: F,
    value: G,
    items: Seq<T>,
    sums: Map<K, V>,
    kf: spec_fn(T) -> K,
    vf: spec_fn(T) -> V,
    zero: V,
) where V: Default + Add<Output = V>, F: FnMut(&T) -> K, G: FnMut(&T) -> V
    requires
        summed(key, value, items, sums),
        computes(key, items, kf),
        computes(value, items, vf),
        default_is(zero),
    ensures
        sums == sum_by(valued_by(items, kf, vf), zero),
{
    let (keys, values, start) = choose|keys: Seq<K>, values: Seq<V>, start: V|
        yields(key, items, keys) && yields(value, items, values) && (items.len() > 0
            ==> call_ensures(V::default, (), start)) && sums == #[trigger] sum_by(
            keys.zip_with(values),
            start,
        );
    lemma_yields_images(key, items, keys, kf);
    lemma_yields_images(value, items, values, vf);
    assert(keys.zip_with(values) =~= valued_by(items, kf, vf));
    if items.len() == 0 {
        assert(sum_by(keys.zip_with(values), start) =~= sum_by(keys.zip_with(values), zero)) by {
            assert forall|k: K| !sum_by(keys.zip_with(values), start).contains_key(k) by {
                assert(keys.zip_with(values) =~= Seq::empty());
                lemma_bucket_of_none::<K, V>(k);
            }
        }
    }
}

} // verus!
