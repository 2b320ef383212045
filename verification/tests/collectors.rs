use std::cmp::Ordering;
use std::collections::HashMap;
use std::collections::HashSet;

use grouping_by::utilities::{finish, grouping_by_min_max_aux, select_and_finish};
use grouping_by::GroupingBy;

#[derive(Debug, Clone, Copy, PartialEq, Eq, Hash)]
struct Point {
    x: i32,
    y: i32,
}

#[derive(Debug, Clone, Copy, PartialEq, Eq, Hash)]
struct Vector {
    x: i32,
    y: i32,
    z: i32,
}

fn points() -> Vec<Point> {
    vec![
        Point { x: 1, y: 2 },
        Point { x: 1, y: 3 },
        Point { x: 2, y: 2 },
        Point { x: 2, y: 2 },
    ]
}

fn vectors() -> Vec<Vector> {
    vec![
        Vector { x: 1, y: 2, z: 4 },
        Vector { x: 1, y: 3, z: 3 },
        Vector { x: 2, y: 2, z: 2 },
        Vector { x: 2, y: 2, z: 1 },
    ]
}

#[test]
fn grouping_by_of_nothing_is_empty() {
    let groups: HashMap<i32, Vec<i32>> = Vec::<i32>::new().into_iter().grouping_by(|n| *n);
    assert!(groups.is_empty());
}

#[test]
fn grouping_by_as_set_of_nothing_is_empty() {
    let groups: HashMap<i32, HashSet<i32>> =
        Vec::<i32>::new().into_iter().grouping_by_as_set(|n| *n);
    assert!(groups.is_empty());
}

#[test]
fn counter_of_nothing_is_empty() {
    let counts: HashMap<i32, usize> = Vec::<i32>::new().into_iter().counter(|n| *n);
    assert!(counts.is_empty());
}

#[test]
fn extremal_of_nothing_is_empty() {
    let greatest: HashMap<i32, i32> =
        Vec::<i32>::new()
            .into_iter()
            .grouping_by_max(|n| *n, |a, b| a.cmp(b), |n| *n);
    let least: HashMap<i32, i32> =
        Vec::<i32>::new()
            .into_iter()
            .grouping_by_min(|n| *n, |a, b| a.cmp(b), |n| *n);
    assert!(greatest.is_empty());
    assert!(least.is_empty());
}

#[test]
fn summing_of_nothing_is_empty() {
    let sums: HashMap<i32, i32> = Vec::<i32>::new().into_iter().summing(|n| *n, |n| *n);
    assert!(sums.is_empty());
}

#[test]
fn grouping_by_points_by_x() {
    let groups = points().into_iter().grouping_by(|point| point.x);
    let mut expected = HashMap::new();
    expected.insert(1, vec![Point { x: 1, y: 2 }, Point { x: 1, y: 3 }]);
    expected.insert(2, vec![Point { x: 2, y: 2 }, Point { x: 2, y: 2 }]);
    assert_eq!(groups, expected);
}

#[test]
fn grouping_by_as_set_points_by_y() {
    let groups = points().into_iter().grouping_by_as_set(|point| point.y);
    let mut twos = HashSet::new();
    twos.insert(Point { x: 1, y: 2 });
    twos.insert(Point { x: 2, y: 2 });
    let mut threes = HashSet::new();
    threes.insert(Point { x: 1, y: 3 });
    let mut expected = HashMap::new();
    expected.insert(2, twos);
    expected.insert(3, threes);
    assert_eq!(groups, expected);
    assert_eq!(groups[&2].len(), 2);
}

#[test]
fn grouping_by_keeps_order_of_arrival() {
    let groups = vec![5, 2, 9, 4, 1, 8, 3].into_iter().grouping_by(|n| n % 2);
    assert_eq!(groups[&1], vec![5, 9, 1, 3]);
    assert_eq!(groups[&0], vec![2, 4, 8]);
    assert_eq!(groups.len(), 2);
}

#[test]
fn grouping_by_single_item() {
    let groups = vec![7].into_iter().grouping_by(|n| n * 10);
    assert_eq!(groups.len(), 1);
    assert_eq!(groups[&70], vec![7]);
}

#[test]
fn groups_hold_every_item_once() {
    let items = vec![3, 1, 4, 1, 5, 9, 2, 6, 5, 3, 5];
    let groups = items.clone().into_iter().grouping_by(|n| n % 4);
    let total: usize = groups.values().map(|group| group.len()).sum();
    assert_eq!(total, items.len());
    assert_eq!(total, 11);
    for item in items.iter() {
        let holders = groups
            .iter()
            .filter(|(_, group)| group.contains(item))
            .count();
        assert_eq!(holders, 1);
        assert!(groups[&(item % 4)].contains(item));
    }
    for (k, group) in groups.iter() {
        assert!(!group.is_empty());
        for item in group.iter() {
            assert_eq!(item % 4, *k);
        }
    }
}

#[test]
fn counts_are_group_lengths() {
    let items = vec![3, 1, 4, 1, 5, 9, 2, 6, 5, 3, 5];
    let groups = items.clone().into_iter().grouping_by(|n| n % 3);
    let counts = items.into_iter().counter(|n| n % 3);
    assert_eq!(counts.len(), groups.len());
    for (k, group) in groups.iter() {
        assert_eq!(counts[k], group.len());
    }
    assert_eq!(counts[&0], 4);
    assert_eq!(counts[&1], 3);
    assert_eq!(counts[&2], 4);
}

#[test]
fn counter_by_absolute_value() {
    let counts = vec![-1i32, -2, 1, 2].into_iter().counter(|n| n.abs());
    let mut expected = HashMap::new();
    expected.insert(1, 2usize);
    expected.insert(2, 2usize);
    assert_eq!(counts, expected);
}

#[test]
fn counter_single_key() {
    let counts = vec!['a', 'b', 'c', 'd'].into_iter().counter(|_| ());
    assert_eq!(counts.len(), 1);
    assert_eq!(counts[&()], 4);
}

#[test]
fn set_is_no_larger_than_group() {
    let items = vec![3, 1, 4, 1, 5, 9, 2, 6, 5, 3, 5];
    let groups = items.clone().into_iter().grouping_by(|n| n % 2);
    let sets = items.into_iter().grouping_by_as_set(|n| n % 2);
    assert_eq!(sets.len(), groups.len());
    for (k, group) in groups.iter() {
        assert!(sets[k].len() <= group.len());
    }
    // odd: 3 1 1 5 9 5 3 5 holds 1, 3 and 5 more than once
    assert_eq!(groups[&1].len(), 8);
    assert_eq!(sets[&1].len(), 4);
    // even: 4 2 6 holds nothing twice
    assert_eq!(groups[&0].len(), 3);
    assert_eq!(sets[&0].len(), 3);
}

#[test]
fn set_is_as_large_exactly_without_duplicates() {
    let distinct = vec![10, 20, 30, 40];
    let groups = distinct.clone().into_iter().grouping_by(|_| 0);
    let sets = distinct.into_iter().grouping_by_as_set(|_| 0);
    assert_eq!(sets[&0].len(), groups[&0].len());

    let repeated = vec![10, 20, 10, 40];
    let groups = repeated.clone().into_iter().grouping_by(|_| 0);
    let sets = repeated.into_iter().grouping_by_as_set(|_| 0);
    assert_eq!(groups[&0].len(), 4);
    assert_eq!(sets[&0].len(), 3);
}

#[test]
fn tie_keeps_the_earlier_item() {
    let a = Vector { x: 7, y: 0, z: 1 };
    let b = Vector { x: 7, y: 0, z: 2 };
    let greatest = vec![a, b]
        .into_iter()
        .grouping_by_max(|v| v.y, |v1, v2| v1.x.cmp(&v2.x), |v| *v);
    let least = vec![a, b]
        .into_iter()
        .grouping_by_min(|v| v.y, |v1, v2| v1.x.cmp(&v2.x), |v| *v);
    assert_eq!(greatest.len(), 1);
    assert_eq!(least.len(), 1);
    assert_eq!(greatest[&0], a);
    assert_eq!(least[&0], a);
}

#[test]
fn tie_among_many_keeps_the_earliest() {
    let items = vec![(1, 'a'), (3, 'b'), (3, 'c'), (1, 'd'), (3, 'e'), (2, 'f')];
    let greatest = items
        .clone()
        .into_iter()
        .grouping_by_max(|_| 0, |p, q| p.0.cmp(&q.0), |p| p.1);
    let least = items
        .into_iter()
        .grouping_by_min(|_| 0, |p, q| p.0.cmp(&q.0), |p| p.1);
    assert_eq!(greatest[&0], 'b');
    assert_eq!(least[&0], 'a');
}

#[test]
fn extremal_of_vectors_by_x() {
    let greatest = vectors()
        .into_iter()
        .grouping_by_max(|v| v.y, |v1, v2| v1.x.cmp(&v2.x), |v| v.z);
    let least = vectors()
        .into_iter()
        .grouping_by_min(|v| v.y, |v1, v2| v1.x.cmp(&v2.x), |v| v.z);
    let mut expected_greatest = HashMap::new();
    expected_greatest.insert(2, 2);
    expected_greatest.insert(3, 3);
    let mut expected_least = HashMap::new();
    expected_least.insert(2, 4);
    expected_least.insert(3, 3);
    assert_eq!(greatest, expected_greatest);
    assert_eq!(least, expected_least);
}

#[test]
fn extremal_single_item_is_kept() {
    let greatest = vec![42]
        .into_iter()
        .grouping_by_max(|n| n % 5, |a, b| a.cmp(b), |n| n + 1);
    assert_eq!(greatest.len(), 1);
    assert_eq!(greatest[&2], 43);
}

#[test]
fn finisher_runs_once_per_key() {
    let mut calls = 0;
    let greatest = vec![1, 2, 3, 4, 5, 6, 7, 8, 9]
        .into_iter()
        .grouping_by_max(
            |n| n % 3,
            |a, b| a.cmp(b),
            |n| {
                calls += 1;
                n * 100
            },
        );
    assert_eq!(greatest.len(), 3);
    assert_eq!(greatest[&0], 900);
    assert_eq!(greatest[&1], 700);
    assert_eq!(greatest[&2], 800);
    assert_eq!(calls, 3);
}

#[test]
fn key_runs_once_per_item() {
    let mut calls = 0;
    let groups = vec![1, 2, 3, 4, 5].into_iter().grouping_by(|n| {
        calls += 1;
        n % 2
    });
    assert_eq!(groups.len(), 2);
    assert_eq!(calls, 5);
}

#[test]
fn aux_keeps_raw_items() {
    let greatest = grouping_by_min_max_aux(
        vectors().into_iter(),
        |v| v.y,
        |v1, v2| v1.x.cmp(&v2.x),
        Ordering::Greater,
    );
    let least = grouping_by_min_max_aux(
        vectors().into_iter(),
        |v| v.y,
        |v1, v2| v1.x.cmp(&v2.x),
        Ordering::Less,
    );
    assert_eq!(greatest.len(), 2);
    assert_eq!(greatest[&2], Vector { x: 2, y: 2, z: 2 });
    assert_eq!(greatest[&3], Vector { x: 1, y: 3, z: 3 });
    assert_eq!(least.len(), 2);
    assert_eq!(least[&2], Vector { x: 1, y: 2, z: 4 });
    assert_eq!(least[&3], Vector { x: 1, y: 3, z: 3 });
}

#[test]
fn aux_replaces_exactly_on_the_wanted_ordering() {
    // With `Equal` as the wanted ordering a later item replaces the stored one
    // exactly when it ties with it.
    let items = vec![(5, 'a'), (5, 'b'), (9, 'c'), (5, 'd')];
    let kept = grouping_by_min_max_aux(
        items.into_iter(),
        |_| 0,
        |p, q| p.0.cmp(&q.0),
        Ordering::Equal,
    );
    assert_eq!(kept[&0], (5, 'd'));
}

#[test]
fn aux_compares_the_new_item_against_the_stored_one() {
    let mut seen: Vec<(i32, i32)> = Vec::new();
    let kept = grouping_by_min_max_aux(
        vec![4, 7, 5, 9].into_iter(),
        |_| 0,
        |new, stored| {
            seen.push((*new, *stored));
            new.cmp(stored)
        },
        Ordering::Greater,
    );
    assert_eq!(kept[&0], 9);
    assert_eq!(seen, vec![(7, 4), (5, 7), (9, 7)]);
}

#[test]
fn finish_replaces_each_value() {
    let mut best = HashMap::new();
    best.insert("one", 1);
    best.insert("two", 2);
    best.insert("three", 3);
    let finished = finish(best, |n| n * n);
    let mut expected = HashMap::new();
    expected.insert("one", 1);
    expected.insert("two", 4);
    expected.insert("three", 9);
    assert_eq!(finished, expected);
}

#[test]
fn finish_of_nothing_is_empty() {
    let best: HashMap<i32, i32> = HashMap::new();
    let finished: HashMap<i32, String> = finish(best, |n| format!("{}", n));
    assert!(finished.is_empty());
}

#[test]
fn summing_points() {
    let sums = vec![(4, 2), (4, 2), (5, 13), (18, 9)]
        .into_iter()
        .summing(|point| point.0, |point| point.1);
    let mut expected = HashMap::new();
    expected.insert(4, 4);
    expected.insert(5, 13);
    expected.insert(18, 9);
    assert_eq!(sums, expected);
}

#[test]
fn summing_vectors_by_x() {
    let sums = vectors().into_iter().summing(|v| v.x, |v| v.y);
    let mut expected = HashMap::new();
    expected.insert(2, 4);
    expected.insert(1, 5);
    assert_eq!(sums, expected);
}

#[test]
fn sums_are_folds_over_the_groups() {
    let items: Vec<(u8, i64)> = vec![(1, 10), (2, -3), (1, 5), (3, 0), (2, 8), (1, -20)];
    let sums = items.clone().into_iter().summing(|p| p.0, |p| p.1);
    let groups = items.into_iter().grouping_by(|p| p.0);
    assert_eq!(sums.len(), groups.len());
    for (k, group) in groups.iter() {
        let folded = group.iter().map(|p| p.1).fold(i64::default(), |sum, v| sum + v);
        assert_eq!(sums[k], folded);
    }
    assert_eq!(sums[&1], -5);
    assert_eq!(sums[&2], 5);
    assert_eq!(sums[&3], 0);
}

#[test]
fn summing_has_no_entry_for_an_absent_key() {
    let sums = vec![(1, 0), (1, 0)].into_iter().summing(|p| p.0, |p| p.1);
    assert_eq!(sums.len(), 1);
    assert_eq!(sums[&1], 0);
    assert!(!sums.contains_key(&0));
}

#[test]
fn collectors_take_any_iterator() {
    let counts = (0..10u32).counter(|n| n % 3);
    assert_eq!(counts[&0], 4);
    assert_eq!(counts[&1], 3);
    assert_eq!(counts[&2], 3);

    let groups = "hello world".chars().grouping_by(|c| *c == 'l');
    assert_eq!(groups[&true], vec!['l', 'l', 'l']);
    assert_eq!(groups[&false].len(), 8);

    let words = ["apple", "avocado", "banana", "blueberry", "cherry"];
    let longest = words
        .iter()
        .grouping_by_max(|w| w.as_bytes()[0], |a, b| a.len().cmp(&b.len()), |w| w.len());
    assert_eq!(longest[&b'a'], 7);
    assert_eq!(longest[&b'b'], 9);
    assert_eq!(longest[&b'c'], 6);
}

#[test]
fn select_and_finish_for_each_wanted_ordering() {
    let items = vec![(2, 'a'), (1, 'b'), (3, 'c'), (1, 'd'), (3, 'e')];
    let greatest = select_and_finish(
        items.clone().into_iter(),
        |_| (),
        |p, q| p.0.cmp(&q.0),
        |p| p.1,
        Ordering::Greater,
    );
    let least = select_and_finish(
        items.into_iter(),
        |_| (),
        |p, q| p.0.cmp(&q.0),
        |p| p.1,
        Ordering::Less,
    );
    assert_eq!(greatest[&()], 'c');
    assert_eq!(least[&()], 'b');
}
