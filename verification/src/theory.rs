//! General facts about grouping, counting and summing: what holds of all
//! entries.

use std::ops::Add;
use vstd::prelude::*;
use vstd::set::fold::{is_fun_commutative, lemma_fold_empty, lemma_fold_insert};
use vstd::std_specs::ops::AddSpec;
use crate::model::{
    bucket, count_by, group_by, group_by_as_set, has_key, lemma_bucket_of_none,
    lemma_bucket_push, lemma_group_by_push, sum_by,
};

verus! {

/// The number of items that the groups hold together.
pub open spec fn total_len<K, T>(groups: Map<K, Seq<T>>) -> nat {
    groups.dom().fold(0nat, |n: nat, k: K| n + groups[k].len())
}

/// Two ways of folding a finite set that agree on each of its elements give
/// the same result.
proof fn lemma_fold_agrees<A>(s: Set<A>, f: spec_fn(nat, A) -> nat, g: spec_fn(nat, A) -> nat)
    requires
        s.finite(),
        is_fun_commutative(f),
        is_fun_commutative(g),
        forall|n: nat, a: A| s.contains(a) ==> #[trigger] f(n, a) == g(n, a),
    ensures
        s.fold(0nat, f) == s.fold(0nat, g),
    decreases s.len(),
{
    if s.is_empty() {
        assert(s =~= Set::empty());
        lemma_fold_empty(0nat, f);
        lemma_fold_empty(0nat, g);
    } else {
        let a = s.choose();
        let rest = s.remove(a);
        assert(rest.insert(a) =~= s);
        lemma_fold_agrees(rest, f, g);
        lemma_fold_insert(rest, 0nat, f, a);
        lemma_fold_insert(rest, 0nat, g, a);
    }
}

/// A key has a group exactly when some entry has that key, and no group is
/// empty.
pub proof fn lemma_key_occurs<K, T>(entries: Seq<(K, T)>, k: K)
    ensures
        group_by(entries).contains_key(k) <==> exists|i: int|
            0 <= i < entries.len() && (#[trigger] entries[i]).0 == k,
        group_by(entries).contains_key(k) ==> group_by(entries)[k].len() > 0,
{
    let pred = has_key::<K, T>(k);
    let kept = entries.filter(pred);
    if kept.len() > 0 {
        entries.lemma_filter_pred(pred, 0);
        entries.lemma_filter_contains_rev(pred, kept[0]);
        let i = choose|i: int| 0 <= i < entries.len() && entries[i] == kept[0];
        assert(entries[i].0 == k);
    }
    if exists|i: int| 0 <= i < entries.len() && (#[trigger] entries[i]).0 == k {
        let i = choose|i: int| 0 <= i < entries.len() && (#[trigger] entries[i]).0 == k;
        entries.lemma_filter_contains(pred, i);
    }
}

/// Only finitely many keys occur among the entries.
pub proof fn lemma_keys_finite<K, T>(entries: Seq<(K, T)>)
    ensures
        group_by(entries).dom().finite(),
    decreases entries.len(),
{
    if entries.len() == 0 {
        assert forall|k: K| !group_by(entries).contains_key(k) by {
            assert(entries =~= Seq::empty());
            lemma_bucket_of_none::<K, T>(k);
        }
        assert(group_by(entries).dom() =~= Set::empty());
    } else {
        let front = entries.drop_last();
        assert(entries =~= front.push(entries.last()));
        lemma_keys_finite(front);
        lemma_group_by_push(front, entries.last());
    }
}

/// Completeness, by number: the groups together hold as many items as there
/// are entries.
pub proof fn lemma_groups_hold_every_item<K, T>(entries: Seq<(K, T)>)
    ensures
        total_len(group_by(entries)) == entries.len(),
    decreases entries.len(),
{
    let groups = group_by(entries);
    let size = |n: nat, k: K| n + groups[k].len();
    if entries.len() == 0 {
        assert forall|k: K| !groups.contains_key(k) by {
            assert(entries =~= Seq::empty());
            lemma_bucket_of_none::<K, T>(k);
        }
        assert(groups.dom() =~= Set::empty());
        lemma_fold_empty(0nat, size);
    } else {
        let front = entries.drop_last();
        let entry = entries.last();
        let k = entry.0;
        assert(entries =~= front.push(entry));
        let before = group_by(front);
        let size_before = |n: nat, j: K| n + before[j].len();
        lemma_groups_hold_every_item(front);
        lemma_keys_finite(front);
        lemma_group_by_push(front, entry);
        let others = before.dom().remove(k);
        assert(groups.dom() =~= others.insert(k));
        lemma_fold_agrees(others, size, size_before);
        lemma_fold_insert(others, 0nat, size, k);
        if before.contains_key(k) {
            assert(before.dom() =~= others.insert(k));
            lemma_fold_insert(others, 0nat, size_before, k);
        } else {
            assert(before.dom() =~= others);
            assert(bucket(front, k).len() == 0);
        }
    }
}

/// Completeness, by membership: an item is in the group of a key exactly when
/// it is an entry under that key. So each item is in the group of its own key,
/// and in that of another key only where it arrived under that key too.
pub proof fn lemma_item_in_one_group<K, T>(entries: Seq<(K, T)>, k: K, item: T)
    ensures
        group_by(entries).contains_key(k) && group_by(entries)[k].contains(item)
            <==> entries.contains((k, item)),
{
    let pred = has_key::<K, T>(k);
    let kept = entries.filter(pred);
    let group = bucket(entries, k);
    if entries.contains((k, item)) {
        let i = choose|i: int| 0 <= i < entries.len() && entries[i] == (k, item);
        entries.lemma_filter_contains(pred, i);
        let j = choose|j: int| 0 <= j < kept.len() && kept[j] == (k, item);
        assert(group[j] == item);
    }
    if group.len() > 0 && group.contains(item) {
        let j = choose|j: int| 0 <= j < group.len() && group[j] == item;
        entries.lemma_filter_pred(pred, j);
        entries.lemma_filter_contains_rev(pred, kept[j]);
        assert(kept[j] == (k, item));
    }
}

/// The groups keep the order of arrival: the items of a group are the entries
/// under its key at places that increase along the group.
pub proof fn lemma_group_keeps_order<K, T>(entries: Seq<(K, T)>, k: K) -> (at: Seq<int>)
    ensures
        at.len() == bucket(entries, k).len(),
        forall|j: int|
            0 <= j < at.len() ==> 0 <= #[trigger] at[j] < entries.len() && entries[at[j]] == (
                k,
                bucket(entries, k)[j],
            ),
        forall|i: int, j: int| 0 <= i < j < at.len() ==> at[i] < at[j],
    decreases entries.len(),
{
    if entries.len() == 0 {
        assert(entries =~= Seq::empty());
        lemma_bucket_of_none::<K, T>(k);
        Seq::empty()
    } else {
        let front = entries.drop_last();
        let entry = entries.last();
        assert(entries =~= front.push(entry));
        let front_at = lemma_group_keeps_order(front, k);
        lemma_bucket_push(front, entry, k);
        let at = if entry.0 == k {
            front_at.push(front.len() as int)
        } else {
            front_at
        };
        assert forall|j: int| 0 <= j < at.len() implies 0 <= #[trigger] at[j] < entries.len()
            && entries[at[j]] == (k, bucket(entries, k)[j]) by {
            if j < front_at.len() {
                assert(front[front_at[j]] == (k, bucket(front, k)[j]));
            }
        }
        assert forall|i: int, j: int| 0 <= i < j < at.len() implies at[i] < at[j] by {
            if j >= front_at.len() {
                assert(0 <= front_at[i] < front.len());
            }
        }
        at
    }
}

/// Counting is grouping and taking lengths: the same keys occur, and the
/// count of a key is the length of its group.
pub proof fn lemma_count_is_group_len<K, T>(entries: Seq<(K, T)>)
    ensures
        count_by(entries).dom() == group_by(entries).dom(),
        forall|k: K| #[trigger]
            count_by(entries).contains_key(k) ==> count_by(entries)[k] == group_by(
                entries,
            )[k].len(),
{
    assert(count_by(entries).dom() =~= group_by(entries).dom());
}

/// A group as a set is no larger than the group, and as large exactly when no
/// item occurs twice in the group.
pub proof fn lemma_set_dedups<K, T>(entries: Seq<(K, T)>, k: K)
    requires
        group_by(entries).contains_key(k),
    ensures
        group_by_as_set(entries).contains_key(k),
        group_by_as_set(entries)[k].finite(),
        group_by_as_set(entries)[k].len() <= group_by(entries)[k].len(),
        group_by_as_set(entries)[k].len() == group_by(entries)[k].len() <==> group_by(
            entries,
        )[k].no_duplicates(),
{
    let group = bucket(entries, k);
    group.lemma_cardinality_of_set();
    vstd::seq_lib::seq_to_set_is_finite(group);
    if group.no_duplicates() {
        group.unique_seq_to_set();
    }
    if group.to_set().len() == group.len() {
        group.lemma_no_dup_set_cardinality();
    }
}

/// The sum of a key is the values of the entries under it, added from left to
/// right to `zero`; a key without entries has no sum.
pub proof fn lemma_sum_is_fold<K, V: Add<Output = V>>(entries: Seq<(K, V)>, zero: V, k: K)
    ensures
        sum_by(entries, zero).contains_key(k) <==> exists|i: int|
            0 <= i < entries.len() && (#[trigger] entries[i]).0 == k,
        sum_by(entries, zero).contains_key(k) ==> sum_by(entries, zero)[k] == entries.filter(
            |entry: (K, V)| entry.0 == k,
        ).map_values(|entry: (K, V)| entry.1).fold_left(zero, |sum: V, v: V| sum.add_spec(v)),
{
    assert(has_key::<K, V>(k) == (|entry: (K, V)| entry.0 == k));
    assert(bucket(entries, k) =~= entries.filter(|entry: (K, V)| entry.0 == k).map_values(
        |entry: (K, V)| entry.1,
    ));
    lemma_key_occurs(entries, k);
}

} // verus!
