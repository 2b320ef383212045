//! The vocabulary of the contracts: what is asked of the iterator and of the
//! closures, and how a result relates to the model.
//!
//! A closure is known to the verifier by its contract alone, and that contract
//! may leave open what the closure returns. So a result is described by what
//! the closures did return: there are keys, one returned for each item, for
//! which the result is the model's map. Where a closure's contract fixes what
//! it returns, [`crate::functions`] turns this into the model's map for the
//! function that the closure computes.

use std::cmp::Ordering;
use std::collections::HashSet;
use std::ops::Add;
use vstd::prelude::*;
use vstd::std_specs::iter::IteratorSpec;
use crate::model::{
    count_by, group_by, group_by_as_set, last_sum_allowed, select, sum_by,
};

verus! {

/// The iterator hands out a fixed sequence of items, `source.remaining()`,
/// and then stops.
pub open spec fn terminates<I: Iterator>(source: I) -> bool {
    source.obeys_prophetic_iter_laws() && source.decrease() is Some
}

/// The closure `f` may be called on each of `items`.
pub open spec fn accepts<T, R, F: FnMut(&T) -> R>(f: F, items: Seq<T>) -> bool {
    forall|i: int| 0 <= i < items.len() ==> call_requires(f, (&#[trigger] items[i],))
}

/// The closure `comparator` may be called on each of `items` together with an
/// earlier one.
pub open spec fn accepts_pairs<T, C: FnMut(&T, &T) -> Ordering>(
    comparator: C,
    items: Seq<T>,
) -> bool {
    forall|i: int, j: int|
        0 <= j < i < items.len() ==> call_requires(
            comparator,
            (&#[trigger] items[i], &#[trigger] items[j]),
        )
}

/// `outs` holds, for each of `items` in turn, a value that the closure `f`
/// returns on it.
pub open spec fn yields<T, R, F: FnMut(&T) -> R>(f: F, items: Seq<T>, outs: Seq<R>) -> bool {
    &&& outs.len() == items.len()
    &&& forall|i: int| 0 <= i < items.len() ==> call_ensures(f, (&items[i],), #[trigger] outs[i])
}

/// Where entry `i` arrives at a key that has an item stored, `verdicts[i]` is
/// a value that `comparator` returns on the entry's item and the stored one.
pub open spec fn judges_at<K, T, C: FnMut(&T, &T) -> Ordering>(
    comparator: C,
    wanted: Ordering,
    entries: Seq<(K, T)>,
    verdicts: Seq<Ordering>,
    i: int,
) -> bool {
    let stored = select(entries.take(i), verdicts, wanted);
    stored.contains_key(entries[i].0) ==> call_ensures(
        comparator,
        (&entries[i].1, &stored[entries[i].0]),
        verdicts[i],
    )
}

/// `verdicts` holds, for each of the entries in turn, what `comparator`
/// returns when the entry arrives (see [`judges_at`]).
pub open spec fn judges<K, T, C: FnMut(&T, &T) -> Ordering>(
    comparator: C,
    wanted: Ordering,
    entries: Seq<(K, T)>,
    verdicts: Seq<Ordering>,
) -> bool {
    &&& verdicts.len() == entries.len()
    &&& forall|i: int|
        0 <= i < entries.len() ==> #[trigger] judges_at(comparator, wanted, entries, verdicts, i)
}

/// `zero` is the value that `V::default()` returns.
pub open spec fn default_is<V: Default>(zero: V) -> bool {
    forall|z: V| call_ensures(V::default, (), z) ==> z == zero
}

/// `groups` is what grouping `items` gives: [`group_by`] of the items, each
/// with a key that `key` returns for it.
pub open spec fn grouped<T, K, F: FnMut(&T) -> K>(
    key: F,
    items: Seq<T>,
    groups: Map<K, Seq<T>>,
) -> bool {
    exists|keys: Seq<K>| #[trigger]
        yields(key, items, keys) && groups == group_by(keys.zip_with(items))
}

/// `groups` is what grouping `items` into sets gives: [`group_by_as_set`] of
/// the items, each with a key that `key` returns for it.
pub open spec fn grouped_as_sets<T, K, F: FnMut(&T) -> K>(
    key: F,
    items: Seq<T>,
    groups: Map<K, Set<T>>,
) -> bool {
    exists|keys: Seq<K>| #[trigger]
        yields(key, items, keys) && groups == group_by_as_set(keys.zip_with(items))
}

/// `counts` is what counting `items` gives: [`count_by`] of the items, each
/// with a key that `key` returns for it.
pub open spec fn counted<T, K, F: FnMut(&T) -> K>(
    key: F,
    items: Seq<T>,
    counts: Map<K, nat>,
) -> bool {
    exists|keys: Seq<K>| #[trigger]
        yields(key, items, keys) && counts == count_by(keys.zip_with(items))
}

/// `best` is what selecting among `items` gives: the [`select`]ion among the
/// items, each with a key that `key` returns for it, that the verdicts of
/// `comparator` bring about.
pub open spec fn selected<T, K, F, C>(
    key: F,
    comparator: C,
    wanted: Ordering,
    items: Seq<T>,
    best: Map<K, T>,
) -> bool where F: FnMut(&T) -> K, C: FnMut(&T, &T) -> Ordering {
    exists|keys: Seq<K>, verdicts: Seq<Ordering>|
        yields(key, items, keys) && #[trigger] judges(
            comparator,
            wanted,
            keys.zip_with(items),
            verdicts,
        ) && best == select(keys.zip_with(items), verdicts, wanted)
}

/// `finished` has the keys of `best`, each with a value that `finisher`
/// returns on the item that `best` has there.
pub open spec fn finishes<K, T, O, G: FnMut(&T) -> O>(
    finisher: G,
    best: Map<K, T>,
    finished: Map<K, O>,
) -> bool {
    &&& finished.dom() == best.dom()
    &&& forall|k: K| #[trigger]
        best.contains_key(k) ==> call_ensures(finisher, (&best[k],), finished[k])
}

/// `finished` is what selecting among `items` and finishing gives: there is a
/// selection `best` ([`selected`]) that `finished` finishes ([`finishes`]).
pub open spec fn selected_and_finished<T, K, O, F, C, G>(
    key: F,
    comparator: C,
    finisher: G,
    wanted: Ordering,
    items: Seq<T>,
    finished: Map<K, O>,
) -> bool where F: FnMut(&T) -> K, C: FnMut(&T, &T) -> Ordering, G: FnMut(&T) -> O {
    exists|best: Map<K, T>| #[trigger]
        selected(key, comparator, wanted, items, best) && finishes(finisher, best, finished)
}

/// Summing `items` from `zero` on makes only additions that `V` allows:
/// whatever keys and values the closures return for the first items, the sum
/// that the last of these keys has reached may take the last of these values.
pub open spec fn additions_allowed<T, K, V, F, G>(
    key: F,
    value: G,
    items: Seq<T>,
    zero: V,
) -> bool where V: Add<Output = V>, F: FnMut(&T) -> K, G: FnMut(&T) -> V {
    forall|n: int, keys: Seq<K>, values: Seq<V>|
        0 < n <= items.len() && #[trigger] yields(key, items.take(n), keys) && #[trigger] yields(
            value,
            items.take(n),
            values,
        ) ==> last_sum_allowed(keys.zip_with(values), zero)
}

/// `items` can be summed: `V::default()` returns one value, and summing from
/// it on makes only additions that `V` allows.
pub open spec fn summable<T, K, V, F, G>(key: F, value: G, items: Seq<T>) -> bool where
    V: Default + Add<Output = V>,
    F: FnMut(&T) -> K,
    G: FnMut(&T) -> V,
 {
    exists|zero: V| default_is(zero) && #[trigger] additions_allowed(key, value, items, zero)
}

/// `sums` is what summing `items` gives: [`sum_by`] of the values that
/// `value` returns for the items, each with a key that `key` returns for its
/// item, from a `zero` on that `V::default()` returns.
pub open spec fn summed<T, K, V, F, G>(key: F, value: G, items: Seq<T>, sums: Map<K, V>) -> bool where
    V: Default + Add<Output = V>,
    F: FnMut(&T) -> K,
    G: FnMut(&T) -> V,
 {
    exists|keys: Seq<K>, values: Seq<V>, zero: V|
        yields(key, items, keys) && yields(value, items, values) && (items.len() > 0
            ==> call_ensures(V::default, (), zero)) && sums == #[trigger] sum_by(
            keys.zip_with(values),
            zero,
        )
}

/// The groups of a result, each as the sequence that it holds.
pub open spec fn group_views<K, T>(groups: Map<K, Vec<T>>) -> Map<K, Seq<T>> {
    groups.map_values(|group: Vec<T>| group@)
}

/// The groups of a result, each as the set that it holds.
pub open spec fn set_views<K, T>(groups: Map<K, HashSet<T>>) -> Map<K, Set<T>> {
    groups.map_values(|group: HashSet<T>| group@)
}

/// The counts of a result as natural numbers.
pub open spec fn count_views<K>(counts: Map<K, usize>) -> Map<K, nat> {
    counts.map_values(|count: usize| count as nat)
}

/// The views of groups of which one was put in or replaced.
pub proof fn lemma_group_views_insert<K, T>(groups: Map<K, Vec<T>>, k: K, group: Vec<T>)
    ensures
        group_views(groups.insert(k, group)) == group_views(groups).insert(k, group@),
{
    assert(group_views(groups.insert(k, group)) =~= group_views(groups).insert(k, group@));
}

/// The views of sets of which one was put in or replaced.
pub proof fn lemma_set_views_insert<K, T>(groups: Map<K, HashSet<T>>, k: K, group: HashSet<T>)
    ensures
        set_views(groups.insert(k, group)) == set_views(groups).insert(k, group@),
{
    assert(set_views(groups.insert(k, group)) =~= set_views(groups).insert(k, group@));
}

/// The views of counts of which one was put in or replaced.
pub proof fn lemma_count_views_insert<K>(counts: Map<K, usize>, k: K, count: usize)
    ensures
        count_views(counts.insert(k, count)) == count_views(counts).insert(k, count as nat),
{
    assert(count_views(counts.insert(k, count)) =~= count_views(counts).insert(k, count as nat));
}

} // verus!
