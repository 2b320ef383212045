//! The two stages of the extremal collectors: the fold that selects one item
//! per key, and the pass that finishes each selected item.

use std::cmp::Ordering;
use std::collections::hash_map::Entry;
use std::collections::HashMap;
use std::hash::Hash;
use vstd::prelude::*;
use vstd::std_specs::hash::{obeys_key_model, OccupiedEntrySpecFns};
use vstd::std_specs::iter::IteratorSpec;
use crate::contract::{
    accepts, accepts_pairs, finishes, judges, judges_at, selected, selected_and_finished,
    terminates, yields,
};
use crate::model::{lemma_select_ignores_later, lemma_select_push, select};

verus! {

/// Whether two orderings are the same one.
fn same_ordering(found: Ordering, wanted: Ordering) -> (same: bool)
    ensures
        same == (found == wanted),
{
    match (found, wanted) {
        (Ordering::Less, Ordering::Less) => true,
        (Ordering::Equal, Ordering::Equal) => true,
        (Ordering::Greater, Ordering::Greater) => true,
        _ => false,
    }
}

/// The verdicts still judge the entries when one more entry has arrived with
/// its verdict.
proof fn lemma_judges_push<K, T, C: FnMut(&T, &T) -> Ordering>(
    comparator: C,
    wanted: Ordering,
    entries: Seq<(K, T)>,
    verdicts: Seq<Ordering>,
    entry: (K, T),
    verdict: Ordering,
)
    requires
        judges(comparator, wanted, entries, verdicts),
        select(entries, verdicts, wanted).contains_key(entry.0) ==> call_ensures(
            comparator,
            (&entry.1, &select(entries, verdicts, wanted)[entry.0]),
            verdict,
        ),
    ensures
        judges(comparator, wanted, entries.push(entry), verdicts.push(verdict)),
        select(entries, verdicts.push(verdict), wanted) == select(entries, verdicts, wanted),
{
    let longer = entries.push(entry);
    let more = verdicts.push(verdict);
    lemma_select_ignores_later(entries, verdicts, more, wanted);
    assert forall|i: int| 0 <= i < longer.len() implies #[trigger] judges_at(
        comparator,
        wanted,
        longer,
        more,
        i,
    ) by {
        if i < entries.len() {
            assert(longer.take(i) =~= entries.take(i));
            lemma_select_ignores_later(entries.take(i), verdicts, more, wanted);
            assert(judges_at(comparator, wanted, entries, verdicts, i));
        } else {
            assert(longer.take(i) =~= entries);
        }
    }
}

/// Folds `iterator` into one item per key: the first item of a key is stored,
/// and a later item of that key replaces the stored one exactly when
/// `comparator(&item, &stored)` is `type_ord`.
pub fn grouping_by_min_max_aux<T, K, F, C>(
    iterator: T,
    mut key: F,
    mut comparator: C,
    type_ord: Ordering,
) -> (best: HashMap<K, T::Item>) where
    T: Iterator,
    K: Eq + Hash,
    F: FnMut(&T::Item) -> K,
    C: FnMut(&T::Item, &T::Item) -> Ordering,

    requires
        terminates(iterator),
        obeys_key_model::<K>(),
        accepts(key, iterator.remaining()),
        accepts_pairs(comparator, iterator.remaining()),
    ensures
        selected(key, comparator, type_ord, iterator.remaining(), best@),
        forall|k: K| #[trigger] best@.contains_key(k) ==> iterator.remaining().contains(best@[k]),
{
    let ghost items = iterator.remaining();
    let ghost key_fn = key;
    let ghost compare_fn = comparator;
    let ghost mut seen: int = 0;
    let ghost mut keys: Seq<K> = Seq::empty();
    let ghost mut verdicts: Seq<Ordering> = Seq::empty();
    let mut iterator = iterator;
    let mut map: HashMap<K, T::Item> = HashMap::new();
    proof {
        assert(keys.zip_with(items.take(0)) =~= Seq::empty());
    }
    loop
        invariant
            terminates(iterator),
            obeys_key_model::<K>(),
            0 <= seen <= items.len(),
            iterator.remaining() == items.skip(seen),
            key == key_fn,
            comparator == compare_fn,
            accepts(key, items),
            accepts_pairs(comparator, items),
            yields(key, items.take(seen), keys),
            judges(comparator, type_ord, keys.zip_with(items.take(seen)), verdicts),
            map@ == select(keys.zip_with(items.take(seen)), verdicts, type_ord),
            forall|k: K| #[trigger]
                map@.contains_key(k) ==> exists|j: int| 0 <= j < seen && map@[k] == items[j],
        ensures
            seen == items.len(),
        decreases iterator.decrease()->0,
    {
        match iterator.next() {
            None => {
                break ;
            },
            Some(item) => {
                assert(item == items[seen]);
                let ghost before = map@;
                let ghost entries = keys.zip_with(items.take(seen));
                let ghost verdict = Ordering::Equal;
                let k = key(&item);
                match map.entry(k) {
                    Entry::Occupied(mut entry) => {
                        let ghost stored = entry.value();
                        let ghost j = choose|j: int| 0 <= j < seen && stored == items[j];
                        let found = comparator(&item, entry.get());
                        if same_ordering(found, type_ord) {
                            entry.insert(item);
                        }
                        proof {
                            verdict = found;
                        }
                    },
                    Entry::Vacant(entry) => {
                        entry.insert(item);
                    },
                }
                proof {
                    lemma_judges_push(comparator, type_ord, entries, verdicts, (k, item), verdict);
                    lemma_select_push(entries, (k, item), verdicts.push(verdict), type_ord);
                    keys = keys.push(k);
                    verdicts = verdicts.push(verdict);
                    assert(keys.zip_with(items.take(seen + 1)) =~= entries.push((k, item)));
                    seen = seen + 1;
                }
            },
        }
    }
    proof {
        assert(items.take(seen) =~= items);
    }
    map
}

/// Selects one item per key as [`grouping_by_min_max_aux`] does and finishes
/// each as [`finish`] does.
pub fn select_and_finish<T, K, F, C, G, O>(
    iterator: T,
    key: F,
    comparator: C,
    finisher: G,
    type_ord: Ordering,
) -> (finished: HashMap<K, O>) where
    T: Iterator,
    K: Eq + Hash,
    F: FnMut(&T::Item) -> K,
    C: FnMut(&T::Item, &T::Item) -> Ordering,
    G: FnMut(&T::Item) -> O,

    requires
        terminates(iterator),
        obeys_key_model::<K>(),
        accepts(key, iterator.remaining()),
        accepts_pairs(comparator, iterator.remaining()),
        accepts(finisher, iterator.remaining()),
    ensures
        selected_and_finished(
            key,
            comparator,
            finisher,
            type_ord,
            iterator.remaining(),
            finished@,
        ),
{
    let best = grouping_by_min_max_aux(iterator, key, comparator, type_ord);
    finish(best, finisher)
}

/// `HashMap::into_iter`, collected: the entries of `map`, each of them once,
/// in the order in which the map hands them out. That order is left open;
/// what is claimed is that every entry is one of the map's, that every key of
/// the map has an entry, and that no two entries have the same key.
#[verifier::external_body]
fn into_entries<K, V>(map: HashMap<K, V>) -> (entries: Vec<(K, V)>)
    ensures
        obeys_key_model::<K>() ==> {
            &&& forall|i: int|
                0 <= i < entries@.len() ==> map@.contains_pair(
                    (#[trigger] entries@[i]).0,
                    entries@[i].1,
                )
            &&& forall|k: K| #[trigger]
                map@.contains_key(k) ==> exists|i: int|
                    0 <= i < entries@.len() && (#[trigger] entries@[i]).0 == k
            &&& forall|i: int, j: int|
                0 <= i < j < entries@.len() ==> (#[trigger] entries@[i]).0 != (
                #[trigger] entries@[j]).0
        },
{
    map.into_iter().collect()
}

/// Replaces each stored item by what `finisher` makes of it. The finisher is
/// called once per key, on the item stored under it.
pub fn finish<K, T, O, G>(best: HashMap<K, T>, mut finisher: G) -> (finished: HashMap<K, O>) where
    K: Eq + Hash,
    G: FnMut(&T) -> O,

    requires
        obeys_key_model::<K>(),
        forall|k: K| #[trigger] best@.contains_key(k) ==> call_requires(finisher, (&best@[k],)),
    ensures
        finishes(finisher, best@, finished@),
{
    let ghost finish_fn = finisher;
    let mut entries = into_entries(best);
    let ghost all = entries@;
    let mut finished: HashMap<K, O> = HashMap::new();
    while entries.len() > 0
        invariant
            obeys_key_model::<K>(),
            finisher == finish_fn,
            entries@.len() <= all.len(),
            entries@ == all.take(entries@.len() as int),
            forall|k: K| #[trigger] best@.contains_key(k) ==> call_requires(finisher, (&best@[k],)),
            forall|i: int|
                0 <= i < all.len() ==> best@.contains_pair((#[trigger] all[i]).0, all[i].1),
            forall|i: int, j: int|
                0 <= i < j < all.len() ==> (#[trigger] all[i]).0 != (#[trigger] all[j]).0,
            forall|k: K| #[trigger]
                finished@.contains_key(k) <==> exists|i: int|
                    entries@.len() <= i < all.len() && (#[trigger] all[i]).0 == k,
            forall|k: K| #[trigger]
                finished@.contains_key(k) ==> call_ensures(finisher, (&best@[k],), finished@[k]),
        decreases entries.len(),
    {
        let ghost left = entries@.len() - 1;
        let ghost before = finished@;
        match entries.pop() {
            None => {},
            Some((k, item)) => {
                assert(all[left] == (k, item));
                let made = finisher(&item);
                finished.insert(k, made);
                proof {
                    assert forall|j: K| #[trigger] finished@.contains_key(j) implies exists|i: int|
                        left <= i < all.len() && (#[trigger] all[i]).0 == j by {
                        if j != k {
                            assert(before.contains_key(j));
                        }
                    }
                    assert forall|j: K|
                        (exists|i: int| left <= i < all.len() && (#[trigger] all[i]).0 == j)
                            implies #[trigger] finished@.contains_key(j) by {
                        let i = choose|i: int| left <= i < all.len() && (#[trigger] all[i]).0 == j;
                        if i != left {
                            assert(before.contains_key(j));
                        }
                    }
                }
            },
        }
    }
    proof {
        assert forall|k: K| best@.contains_key(k) implies finished@.contains_key(k) by {
            let i = choose|i: int| 0 <= i < all.len() && (#[trigger] all[i]).0 == k;
        }
        assert(finished@.dom() =~= best@.dom());
    }
    finished
}

} // verus!
