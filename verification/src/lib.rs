//! Grouping collectors for iterators: partition the items of a finite iterator
//! by a derived key and keep, per key, the items themselves, their set, their
//! number, an extremal item or a sum.
//!
//! Every operation is a single pass over the iterator. What each one returns
//! is stated against the mathematical model in [`model`], in the vocabulary
//! of [`contract`]; [`functions`] restates it for closures that compute
//! functions. The general facts about the model are proved in [`theory`] and
//! [`order`].

use std::cmp::Ordering;
use std::collections::HashMap;
use std::collections::HashSet;
use std::hash::Hash;
use std::ops::Add;
use vstd::prelude::*;
use vstd::std_specs::hash::obeys_key_model;
use vstd::std_specs::iter::IteratorSpec;
use vstd::std_specs::ops::AddSpec;
use crate::contract::{
    accepts, accepts_pairs, additions_allowed, count_views, counted, default_is, group_views,
    grouped, grouped_as_sets, lemma_count_views_insert, lemma_group_views_insert,
    lemma_set_views_insert, selected_and_finished, set_views, summable, summed, terminates,
    yields,
};
use crate::model::{
    bucket, count_by, group_by, group_by_as_set, lemma_bucket_of_none, lemma_count_by_push,
    lemma_group_by_as_set_push, lemma_group_by_push, lemma_sum_by_push, sum_by, sum_of,
};
use crate::utilities::select_and_finish;

pub mod contract;
pub mod functions;
pub mod model;
pub mod order;
pub mod theory;
pub mod utilities;

verus! {

/// The grouping collectors, for every iterator.
///
/// In the contracts `self.remaining()` is the sequence of items that the
/// iterator hands out. Each collector asks that the iterator stops
/// ([`terminates`]), that its closures may be called on the items
/// ([`accepts`]) and that the keys behave in a hash map
/// (`obeys_key_model`); it promises the model's map of the items, each with
/// the key that the closure `key` returned for it ([`grouped`] and its like).
/// For a closure whose contract fixes what it returns, the lemmas of
/// [`functions`] give the map for the function that the closure computes.
pub trait GroupingBy: Iterator<Item = <Self as GroupingBy>::GItem> + Sized {
    /// The type of the items of the iterator.
    type GItem;

    /// Groups the items by key: each key that occurs maps to the items that
    /// have it, in their order of arrival.
    fn grouping_by<K, F>(self, key: F) -> (groups: HashMap<K, Vec<Self::GItem>>) where
        F: FnMut(&Self::GItem) -> K,
        K: Eq + Hash,

        requires
            terminates(self),
            obeys_key_model::<K>(),
            accepts(key, self.remaining()),
        ensures
            grouped(key, self.remaining(), group_views(groups@)),
    ;

    /// Groups the items by key into sets: each key that occurs maps to the set
    /// of the items that have it.
    fn grouping_by_as_set<K, F>(self, key: F) -> (groups: HashMap<K, HashSet<Self::GItem>>) where
        Self::GItem: Eq + Hash,
        F: FnMut(&Self::GItem) -> K,
        K: Eq + Hash,

        requires
            terminates(self),
            obeys_key_model::<K>(),
            obeys_key_model::<Self::GItem>(),
            accepts(key, self.remaining()),
        ensures
            grouped_as_sets(key, self.remaining(), set_views(groups@)),
    ;

    /// Counts the items by key: each key that occurs maps to the number of
    /// items that have it.
    fn counter<K, F>(self, key: F) -> (counts: HashMap<K, usize>) where
        K: Eq + Hash,
        F: FnMut(&Self::GItem) -> K,

        requires
            terminates(self),
            obeys_key_model::<K>(),
            self.remaining().len() <= usize::MAX,
            accepts(key, self.remaining()),
        ensures
            counted(key, self.remaining(), count_views(counts@)),
    ;

    /// Keeps, per key, the greatest item and stores what `finisher` makes of
    /// it. The first item of a key is the first best; a later item replaces
    /// the best only when `comparator(&item, &best)` is `Greater`, so of
    /// several greatest items the earliest is kept.
    fn grouping_by_max<K, F, C, G, O>(self, key: F, comparator: C, finisher: G) -> (best: HashMap<
        K,
        O,
    >) where
        K: Eq + Hash,
        F: FnMut(&Self::GItem) -> K,
        C: FnMut(&Self::GItem, &Self::GItem) -> Ordering,
        G: FnMut(&Self::GItem) -> O,

        requires
            terminates(self),
            obeys_key_model::<K>(),
            accepts(key, self.remaining()),
            accepts_pairs(comparator, self.remaining()),
            accepts(finisher, self.remaining()),
        ensures
            selected_and_finished(
                key,
                comparator,
                finisher,
                Ordering::Greater,
                self.remaining(),
                best@,
            ),
    ;

    /// Keeps, per key, the least item and stores what `finisher` makes of it.
    /// The first item of a key is the first best; a later item replaces the
    /// best only when `comparator(&item, &best)` is `Less`, so of several
    /// least items the earliest is kept.
    fn grouping_by_min<K, F, C, G, O>(self, key: F, comparator: C, finisher: G) -> (best: HashMap<
        K,
        O,
    >) where
        K: Eq + Hash,
        F: FnMut(&Self::GItem) -> K,
        C: FnMut(&Self::GItem, &Self::GItem) -> Ordering,
        G: FnMut(&Self::GItem) -> O,

        requires
            terminates(self),
            obeys_key_model::<K>(),
            accepts(key, self.remaining()),
            accepts_pairs(comparator, self.remaining()),
            accepts(finisher, self.remaining()),
        ensures
            selected_and_finished(
                key,
                comparator,
                finisher,
                Ordering::Less,
                self.remaining(),
                best@,
            ),
    ;

    /// Sums the values of the items by key: each key that occurs maps to the
    /// sum of the values of the items that have it, added in their order of
    /// arrival to `V::default()`.
    fn summing<K, V, F, G>(self, key: F, value: G) -> (sums: HashMap<K, V>) where
        K: Eq + Hash,
        F: FnMut(&Self::GItem) -> K,
        G: FnMut(&Self::GItem) -> V,
        V: Default + Add<Output = V>,

        requires
            terminates(self),
            obeys_key_model::<K>(),
            V::obeys_add_spec(),
            accepts(key, self.remaining()),
            accepts(value, self.remaining()),
            summable(key, value, self.remaining()),
        ensures
            summed(key, value, self.remaining(), sums@),
    ;
}

impl<T: Iterator> GroupingBy for T {
    type GItem = T::Item;

    fn grouping_by<K, F>(self, mut key: F) -> (groups: HashMap<K, Vec<Self::GItem>>) where
        F: FnMut(&Self::GItem) -> K,
        K: Eq + Hash,
    {
        let ghost items = self.remaining();
        let ghost key_fn = key;
        let ghost mut seen: int = 0;
        let ghost mut keys: Seq<K> = Seq::empty();
        let mut source = self;
        let mut map: HashMap<K, Vec<T::Item>> = HashMap::new();
        proof {
            assert(keys.zip_with(items.take(0)) =~= Seq::empty());
            assert forall|k: K| !group_by(Seq::<(K, T::Item)>::empty()).contains_key(k) by {
                lemma_bucket_of_none::<K, T::Item>(k);
            }
            assert(group_views(map@) =~= group_by(Seq::<(K, T::Item)>::empty()));
        }
        loop
            invariant
                terminates(source),
                obeys_key_model::<K>(),
                0 <= seen <= items.len(),
                source.remaining() == items.skip(seen),
                key == key_fn,
                accepts(key, items),
                yields(key, items.take(seen), keys),
                group_views(map@) == group_by(keys.zip_with(items.take(seen))),
            ensures
                seen == items.len(),
            decreases source.decrease()->0,
        {
            match source.next() {
                None => {
                    break ;
                },
                Some(item) => {
                    assert(item == items[seen]);
                    let ghost before = map@;
                    let ghost entries = keys.zip_with(items.take(seen));
                    let k = key(&item);
                    map.entry(k).or_insert(Vec::new()).push(item);
                    proof {
                        lemma_group_by_push(entries, (k, item));
                        assert(map@ =~= before.insert(k, map@[k]));
                        lemma_group_views_insert(before, k, map@[k]);
                        if before.contains_key(k) {
                            assert(group_views(before)[k] == before[k]@);
                        } else {
                            assert(!group_views(before).contains_key(k));
                            assert(bucket(entries, k) =~= Seq::empty());
                        }
                        assert(map@[k]@ == bucket(entries, k).push(item));
                        keys = keys.push(k);
                        assert(keys.zip_with(items.take(seen + 1)) =~= entries.push((k, item)));
                        seen = seen + 1;
                    }
                },
            }
        }
        proof {
            assert(items.take(seen) =~= items);
        }
        map
    }

    fn grouping_by_as_set<K, F>(self, mut key: F) -> (groups: HashMap<K, HashSet<Self::GItem>>) where
        Self::GItem: Eq + Hash,
        F: FnMut(&Self::GItem) -> K,
        K: Eq + Hash,
    {
        let ghost items = self.remaining();
        let ghost key_fn = key;
        let ghost mut seen: int = 0;
        let ghost mut keys: Seq<K> = Seq::empty();
        let mut source = self;
        let mut map: HashMap<K, HashSet<T::Item>> = HashMap::new();
        proof {
            assert(keys.zip_with(items.take(0)) =~= Seq::empty());
            assert forall|k: K| !group_by_as_set(Seq::<(K, T::Item)>::empty()).contains_key(k) by {
                lemma_bucket_of_none::<K, T::Item>(k);
            }
            assert(set_views(map@) =~= group_by_as_set(Seq::<(K, T::Item)>::empty()));
        }
        loop
            invariant
                terminates(source),
                obeys_key_model::<K>(),
                obeys_key_model::<T::Item>(),
                0 <= seen <= items.len(),
                source.remaining() == items.skip(seen),
                key == key_fn,
                accepts(key, items),
                yields(key, items.take(seen), keys),
                set_views(map@) == group_by_as_set(keys.zip_with(items.take(seen))),
            ensures
                seen == items.len(),
            decreases source.decrease()->0,
        {
            match source.next() {
                None => {
                    break ;
                },
                Some(item) => {
                    assert(item == items[seen]);
                    let ghost before = map@;
                    let ghost entries = keys.zip_with(items.take(seen));
                    let k = key(&item);
                    map.entry(k).or_insert(HashSet::new()).insert(item);
                    proof {
                        lemma_group_by_as_set_push(entries, (k, item));
                        assert(map@ =~= before.insert(k, map@[k]));
                        lemma_set_views_insert(before, k, map@[k]);
                        if before.contains_key(k) {
                            assert(set_views(before)[k] == before[k]@);
                        } else {
                            assert(!set_views(before).contains_key(k));
                            assert(bucket(entries, k).to_set() =~= Set::empty());
                        }
                        assert(map@[k]@ == bucket(entries, k).to_set().insert(item));
                        keys = keys.push(k);
                        assert(keys.zip_with(items.take(seen + 1)) =~= entries.push((k, item)));
                        seen = seen + 1;
                    }
                },
            }
        }
        proof {
            assert(items.take(seen) =~= items);
        }
        map
    }

    fn counter<K, F>(self, mut key: F) -> (counts: HashMap<K, usize>) where
        K: Eq + Hash,
        F: FnMut(&Self::GItem) -> K,
    {
        let ghost items = self.remaining();
        let ghost key_fn = key;
        let ghost mut seen: int = 0;
        let ghost mut keys: Seq<K> = Seq::empty();
        let mut source = self;
        let mut map: HashMap<K, usize> = HashMap::new();
        proof {
            assert(keys.zip_with(items.take(0)) =~= Seq::empty());
            assert forall|k: K| !count_by(Seq::<(K, T::Item)>::empty()).contains_key(k) by {
                lemma_bucket_of_none::<K, T::Item>(k);
            }
            assert(count_views(map@) =~= count_by(Seq::<(K, T::Item)>::empty()));
        }
        loop
            invariant
                terminates(source),
                obeys_key_model::<K>(),
                0 <= seen <= items.len() <= usize::MAX,
                source.remaining() == items.skip(seen),
                key == key_fn,
                accepts(key, items),
                yields(key, items.take(seen), keys),
                forall|k: K| #[trigger] map@.contains_key(k) ==> map@[k] <= seen,
                count_views(map@) == count_by(keys.zip_with(items.take(seen))),
            ensures
                seen == items.len(),
            decreases source.decrease()->0,
        {
            match source.next() {
                None => {
                    break ;
                },
                Some(item) => {
                    assert(item == items[seen]);
                    let ghost before = map@;
                    let ghost entries = keys.zip_with(items.take(seen));
                    let k = key(&item);
                    *map.entry(k).or_insert(0) += 1;
                    proof {
                        lemma_count_by_push(entries, (k, item));
                        assert(map@ =~= before.insert(k, map@[k]));
                        lemma_count_views_insert(before, k, map@[k]);
                        if before.contains_key(k) {
                            assert(count_views(before)[k] == before[k]);
                        } else {
                            assert(!count_views(before).contains_key(k));
                        }
                        assert(map@[k] == bucket(entries, k).len() + 1);
                        keys = keys.push(k);
                        assert(keys.zip_with(items.take(seen + 1)) =~= entries.push((k, item)));
                        seen = seen + 1;
                    }
                },
            }
        }
        proof {
            assert(items.take(seen) =~= items);
        }
        map
    }

    fn grouping_by_max<K, F, C, G, O>(self, key: F, comparator: C, finisher: G) -> (best: HashMap<
        K,
        O,
    >) where
        K: Eq + Hash,
        F: FnMut(&Self::GItem) -> K,
        C: FnMut(&Self::GItem, &Self::GItem) -> Ordering,
        G: FnMut(&Self::GItem) -> O,
    {
        select_and_finish(self, key, comparator, finisher, Ordering::Greater)
    }

    fn grouping_by_min<K, F, C, G, O>(self, key: F, comparator: C, finisher: G) -> (best: HashMap<
        K,
        O,
    >) where
        K: Eq + Hash,
        F: FnMut(&Self::GItem) -> K,
        C: FnMut(&Self::GItem, &Self::GItem) -> Ordering,
        G: FnMut(&Self::GItem) -> O,
    {
        select_and_finish(self, key, comparator, finisher, Ordering::Less)
    }

    fn summing<K, V, F, G>(self, mut key: F, mut value: G) -> (sums: HashMap<K, V>) where
        K: Eq + Hash,
        F: FnMut(&Self::GItem) -> K,
        G: FnMut(&Self::GItem) -> V,
        V: Default + Add<Output = V>,
    {
        let ghost items = self.remaining();
        let ghost key_fn = key;
        let ghost value_fn = value;
        let ghost zero = choose|zero: V|
            default_is(zero) && #[trigger] additions_allowed(key, value, items, zero);
        let ghost mut seen: int = 0;
        let ghost mut keys: Seq<K> = Seq::empty();
        let ghost mut values: Seq<V> = Seq::empty();
        let mut source = self;
        let mut map: HashMap<K, V> = HashMap::new();
        proof {
            assert(keys.zip_with(values) =~= Seq::empty());
            assert forall|k: K| !sum_by(Seq::<(K, V)>::empty(), zero).contains_key(k) by {
                lemma_bucket_of_none::<K, V>(k);
            }
            assert(map@ =~= sum_by(Seq::<(K, V)>::empty(), zero));
        }
        loop
            invariant
                terminates(source),
                obeys_key_model::<K>(),
                V::obeys_add_spec(),
                0 <= seen <= items.len(),
                source.remaining() == items.skip(seen),
                key == key_fn,
                value == value_fn,
                accepts(key, items),
                accepts(value, items),
                default_is(zero),
                additions_allowed(key, value, items, zero),
                yields(key, items.take(seen), keys),
                yields(value, items.take(seen), values),
                seen > 0 ==> call_ensures(V::default, (), zero),
                map@ == sum_by(keys.zip_with(values), zero),
            ensures
                seen == items.len(),
            decreases source.decrease()->0,
        {
            match source.next() {
                None => {
                    break ;
                },
                Some(item) => {
                    assert(item == items[seen]);
                    let ghost before = map@;
                    let ghost entries = keys.zip_with(values);
                    let k = key(&item);
                    let sum = match map.remove(&k) {
                        Some(sum) => sum,
                        None => V::default(),
                    };
                    let v = value(&item);
                    proof {
                        if !before.contains_key(k) {
                            assert(bucket(entries, k) =~= Seq::empty());
                        }
                        assert(sum == sum_of(bucket(entries, k), zero));
                        keys = keys.push(k);
                        values = values.push(v);
                        assert(keys.zip_with(values) =~= entries.push((k, v)));
                        assert(keys.zip_with(values).drop_last() =~= entries);
                        assert(yields(key, items.take(seen + 1), keys));
                        assert(yields(value, items.take(seen + 1), values));
                        assert(sum.add_req(v));
                    }
                    map.insert(k, sum + v);
                    proof {
                        lemma_sum_by_push(entries, (k, v), zero);
                        assert(map@ =~= before.insert(k, sum.add_spec(v)));
                        seen = seen + 1;
                    }
                },
            }
        }
        proof {
            assert(items.take(seen) =~= items);
        }
        map
    }
}

} // verus!
