use indexset::change::ChangeEvent;
use indexset::element::Bound;
use indexset::set::{BTreeSet, DEFAULT_INNER_SIZE};

fn filled(n: usize) -> BTreeSet<usize> {
    let mut set = BTreeSet::new();
    for i in 0..n {
        set.insert(i);
    }
    set
}

fn count_range(set: &BTreeSet<usize>, start: Bound<&usize>, end: Bound<&usize>) -> usize {
    let mut range = set.range(start, end);
    let mut n = 0;
    while range.next().is_some() {
        n += 1;
    }
    n
}

fn collect_range(set: &BTreeSet<usize>, start: Bound<&usize>, end: Bound<&usize>) -> Vec<usize> {
    let mut range = set.range(start, end);
    let mut out = vec![];
    while let Some(x) = range.next() {
        out.push(*x);
    }
    out
}

fn collect_range_rev(
    set: &BTreeSet<usize>,
    start: Bound<&usize>,
    end: Bound<&usize>,
) -> Vec<usize> {
    let mut range = set.range(start, end);
    let mut out = vec![];
    while let Some(x) = range.next_back() {
        out.push(*x);
    }
    out
}

#[test]
fn test_insert_twice() {
    let mut set = BTreeSet::new();
    assert_eq!(set.insert(2), true);
    assert_eq!(set.insert(2), false);
    assert_eq!(set.len(), 1);
}

#[test]
fn test_single_element() {
    let mut set = BTreeSet::new();
    set.insert(1);
    let mut iter = set.iter();
    assert_eq!(iter.next(), Some(&1));
    assert_eq!(iter.next(), None);
    assert_eq!(iter.next_back(), None);
}

#[test]
fn test_multiple_elements() {
    let mut set = BTreeSet::new();
    set.insert(1);
    set.insert(2);
    set.insert(3);
    let mut iter = set.iter();
    assert_eq!(iter.next(), Some(&1));
    assert_eq!(iter.next_back(), Some(&3));
    assert_eq!(iter.next(), Some(&2));
    assert_eq!(iter.next(), None);
    assert_eq!(iter.next_back(), None);
}

#[test]
fn test_bidirectional_iteration() {
    let mut set = BTreeSet::new();
    for i in 1..=100000 {
        set.insert(i);
    }
    let mut iter = set.iter();
    for i in 1..=50000 {
        assert_eq!(iter.next(), Some(&i));
        assert_eq!(iter.next_back(), Some(&(100001 - i)));
    }
    assert_eq!(iter.next(), None);
    assert_eq!(iter.next_back(), None);
}

#[test]
fn test_fused_iterator() {
    let mut set = BTreeSet::new();
    set.insert(1);
    let mut iter = set.iter();
    assert_eq!(iter.next(), Some(&1));
    assert_eq!(iter.next(), None);
    assert_eq!(iter.next(), None);
    assert_eq!(iter.next_back(), None);
    assert_eq!(iter.next_back(), None);
}

#[test]
fn test_out_of_bounds_range() {
    let btree = filled(10);
    assert_eq!(count_range(&btree, Bound::Included(&5), Bound::Included(&10)), 5);
    assert_eq!(count_range(&btree, Bound::Included(&5), Bound::Included(&11)), 5);
    assert_eq!(
        count_range(
            &btree,
            Bound::Included(&5),
            Bound::Included(&(10 + DEFAULT_INNER_SIZE))
        ),
        5
    );
    assert_eq!(count_range(&btree, Bound::Included(&0), Bound::Included(&11)), 10);
}

#[test]
fn test_iterating_over_blocks() {
    let n = DEFAULT_INNER_SIZE;
    let btree = filled(n + 10);
    let mut iter = btree.iter();
    let mut count = 0;
    while iter.next().is_some() {
        count += 1;
    }
    assert_eq!(count, n + 10);
    assert_eq!(
        collect_range(&btree, Bound::Included(&0), Bound::Excluded(&n)),
        (0..n).collect::<Vec<_>>()
    );
    assert_eq!(
        collect_range(&btree, Bound::Included(&0), Bound::Included(&n)),
        (0..=n).collect::<Vec<_>>()
    );
    assert_eq!(
        count_range(&btree, Bound::Included(&0), Bound::Included(&(n + 1))),
        n + 2
    );
    let mut back = btree.iter();
    let mut count_back = 0;
    while back.next_back().is_some() {
        count_back += 1;
    }
    assert_eq!(count_back, n + 10);
    assert_eq!(
        collect_range_rev(&btree, Bound::Included(&0), Bound::Excluded(&n)).len(),
        n
    );
    assert_eq!(
        collect_range_rev(&btree, Bound::Included(&0), Bound::Included(&(n + 1))).len(),
        n + 2
    );
}

#[test]
fn test_empty_set() {
    let btree: BTreeSet<usize> = BTreeSet::new();
    assert!(btree.iter().next().is_none());
    assert!(btree.iter().next_back().is_none());
    assert_eq!(count_range(&btree, Bound::Included(&0), Bound::Excluded(&0)), 0);
    assert_eq!(count_range(&btree, Bound::Included(&0), Bound::Unbounded), 0);
    assert_eq!(count_range(&btree, Bound::Unbounded, Bound::Excluded(&0)), 0);
    assert_eq!(count_range(&btree, Bound::Unbounded, Bound::Unbounded), 0);
    assert_eq!(count_range(&btree, Bound::Included(&0), Bound::Included(&0)), 0);
    assert_eq!(count_range(&btree, Bound::Unbounded, Bound::Excluded(&1)), 0);
    assert_eq!(
        count_range(
            &btree,
            Bound::Included(&DEFAULT_INNER_SIZE),
            Bound::Excluded(&(DEFAULT_INNER_SIZE * 2))
        ),
        0
    );
    assert_eq!(btree.len(), 0);
}

#[test]
fn test_range_across_leaves() {
    let btree = filled(1034);
    assert!(btree.node_count() >= 2);
    assert_eq!(
        collect_range(&btree, Bound::Included(&1020), Bound::Excluded(&1030)),
        (1020..1030).collect::<Vec<_>>()
    );
    assert_eq!(
        collect_range_rev(&btree, Bound::Included(&1020), Bound::Excluded(&1030)),
        (1020..1030).rev().collect::<Vec<_>>()
    );
}

#[test]
fn test_range_bounds_kinds() {
    let btree = filled(10);
    assert_eq!(
        collect_range(&btree, Bound::Excluded(&2), Bound::Included(&5)),
        vec![3, 4, 5]
    );
    assert_eq!(
        collect_range(&btree, Bound::Unbounded, Bound::Excluded(&3)),
        vec![0, 1, 2]
    );
    assert_eq!(
        collect_range(&btree, Bound::Included(&8), Bound::Unbounded),
        vec![8, 9]
    );
    assert_eq!(
        collect_range(&btree, Bound::Excluded(&9), Bound::Unbounded),
        Vec::<usize>::new()
    );
    assert_eq!(
        collect_range(&btree, Bound::Included(&5), Bound::Excluded(&5)),
        Vec::<usize>::new()
    );
    assert_eq!(
        collect_range(&btree, Bound::Included(&7), Bound::Included(&3)),
        Vec::<usize>::new()
    );
}

#[test]
fn test_remove_single_element() {
    let mut set = BTreeSet::<i32>::new();
    set.insert(5);
    assert!(set.contains(&5));
    assert!(set.remove(&5).is_some());
    assert!(!set.contains(&5));
    assert!(!set.remove(&5).is_some());
}

#[test]
fn test_remove_multiple_elements() {
    let mut set = BTreeSet::<i32>::new();
    for i in 0..2048 {
        set.insert(i);
    }
    for i in 0..2048 {
        assert!(set.remove(&i).is_some());
        assert!(!set.contains(&i));
    }
    assert_eq!(set.len(), 0);
}

#[test]
fn test_remove_non_existent() {
    let mut set = BTreeSet::<i32>::new();
    set.insert(5);
    assert!(!set.remove(&10).is_some());
    assert!(set.contains(&5));
}

#[test]
fn test_remove_all_elements() {
    let mut set = BTreeSet::<i32>::new();
    let n = 2048;
    for i in 0..n {
        set.insert(i);
    }
    for i in 0..n {
        assert!(set.remove(&i).is_some(), "Failed to remove {}", i);
    }
    assert_eq!(set.len(), 0, "Set should be empty");
    for i in 0..n {
        assert!(!set.contains(&i), "Element {} should not be in the set", i);
    }
}

#[test]
fn test_remove_odd_elements() {
    let mut set = BTreeSet::<i32>::new();
    for i in 0..10000 {
        set.insert(i);
    }
    assert_eq!(set.len(), 10000);
    for i in 0..10000 {
        if i % 2 == 1 {
            assert!(set.remove(&i).is_some(), "Failed to remove {}", i);
        }
    }
    assert_eq!(set.len(), 5000);
    for i in 0..10000 {
        assert_eq!(set.contains(&i), i % 2 == 0);
    }
}

#[test]
fn test_remove_to_empty() {
    let mut set = BTreeSet::<i32>::new();
    set.insert(5);
    let (removed, events) = set.remove_cdc(&5);
    assert_eq!(removed, Some(5));
    assert_eq!(events, vec![ChangeEvent::RemoveNode(5)]);
    assert_eq!(set.len(), 0);
    assert!(set.iter().next().is_none());
}

#[test]
fn test_remove_events() {
    let mut set = BTreeSet::<i32>::new();
    set.insert(1);
    set.insert(2);
    set.insert(3);
    let (removed, events) = set.remove_cdc(&2);
    assert_eq!(removed, Some(2));
    assert_eq!(events, vec![ChangeEvent::RemoveAt(3, 2)]);
    let (removed, events) = set.remove_cdc(&3);
    assert_eq!(removed, Some(3));
    assert_eq!(
        events,
        vec![ChangeEvent::RemoveNode(3), ChangeEvent::InsertNode(1, vec![1])]
    );
    let (removed, events) = set.remove_cdc(&7);
    assert_eq!(removed, None);
    assert_eq!(events, vec![]);
}

#[test]
fn test_insert_events() {
    let mut set = BTreeSet::<i32>::new();
    let (old, events) = set.put_cdc(5);
    assert_eq!(old, None);
    assert_eq!(events, vec![ChangeEvent::InsertNode(5, vec![5])]);
    let (old, events) = set.put_cdc(3);
    assert_eq!(old, None);
    assert_eq!(events, vec![ChangeEvent::InsertAt(5, 3)]);
    let (old, events) = set.put_cdc(9);
    assert_eq!(old, None);
    assert_eq!(
        events,
        vec![
            ChangeEvent::RemoveNode(5),
            ChangeEvent::InsertNode(9, vec![3, 5, 9])
        ]
    );
    let (old, events) = set.put_cdc(5);
    assert_eq!(old, Some(5));
    assert_eq!(
        events,
        vec![ChangeEvent::RemoveAt(9, 5), ChangeEvent::InsertAt(9, 5)]
    );
}

#[test]
fn test_split_small_capacity() {
    let mut set = BTreeSet::<u64>::with_maximum_node_size(2);
    set.insert(10);
    set.insert(20);
    assert_eq!(set.node_count(), 1);
    let (old, events) = set.put_cdc(15);
    assert_eq!(old, None);
    assert_eq!(
        events,
        vec![
            ChangeEvent::RemoveNode(20),
            ChangeEvent::InsertNode(10, vec![10]),
            ChangeEvent::InsertNode(20, vec![15, 20]),
        ]
    );
    assert_eq!(set.node_count(), 2);
    assert_eq!(set.node_items(0), &vec![10]);
    assert_eq!(set.node_items(1), &vec![15, 20]);
    assert_eq!(*set.node_key(0), 10);
    assert_eq!(*set.node_key(1), 20);
    let (old, events) = set.put_cdc(20);
    assert_eq!(old, Some(20));
    assert_eq!(events.len(), 3);
    assert_eq!(set.node_count(), 3);
    assert_eq!(set.len(), 3);
    let (old, _) = set.put_cdc(10);
    assert_eq!(old, Some(10));
    assert_eq!(set.len(), 3);
}

#[test]
fn test_split_threshold() {
    let cap = 8usize;
    let mut set = BTreeSet::<usize>::with_maximum_node_size(cap);
    for i in 0..=cap {
        set.insert(i * 3);
    }
    assert!(set.node_count() >= 2);
    for i in 0..set.node_count() {
        assert!(set.node_items(i).len() <= cap);
        assert!(!set.node_items(i).is_empty());
        assert_eq!(set.node_key(i), set.node_items(i).last().unwrap());
    }
    assert_eq!(set.len(), cap + 1);
}

#[test]
fn test_unordered_inserts_iterate_ascending() {
    let mut set = BTreeSet::<i64>::with_maximum_node_size(4);
    let mut x: i64 = 7;
    let mut expected = std::collections::BTreeSet::new();
    for _ in 0..500 {
        x = (x * 1103515245 + 12345) % 1000;
        set.insert(x - 500);
        expected.insert(x - 500);
    }
    for k in (-500..500).step_by(7) {
        assert_eq!(set.remove(&k), expected.take(&k));
    }
    assert_eq!(set.len(), expected.len());
    let mut iter = set.iter();
    let mut seen = vec![];
    while let Some(v) = iter.next() {
        seen.push(*v);
    }
    assert_eq!(seen, expected.iter().cloned().collect::<Vec<_>>());
    for k in -500..500 {
        assert_eq!(set.contains(&k), expected.contains(&k));
    }
}

#[test]
fn test_get_returns_element() {
    let mut set = BTreeSet::<u8>::new();
    set.insert(4);
    set.insert(9);
    assert_eq!(*set.get(&9).unwrap().get(), 9);
    assert!(set.get(&5).is_none());
}

#[test]
fn test_remove_range() {
    let n = DEFAULT_INNER_SIZE;
    let mut btree = filled(n * 2);
    assert_eq!(btree.len(), n * 2);

    btree.remove_range(Bound::Included(&5), Bound::Excluded(&15));
    assert_eq!(btree.len(), n * 2 - 10);

    btree.remove_range(Bound::Included(&(n - 5)), Bound::Excluded(&(n + 5)));
    assert_eq!(btree.len(), n * 2 - 20);

    btree.remove_range(Bound::Unbounded, Bound::Excluded(&(n / 2)));
    assert_eq!(btree.len(), n * 2 - 20 - n / 2 + 10);

    let from = (n * 3) / 2;
    btree.remove_range(Bound::Included(&from), Bound::Unbounded);
    assert_eq!(btree.len(), n - 10);
    assert_eq!(
        collect_range(&btree, Bound::Unbounded, Bound::Unbounded),
        (n / 2..n - 5).chain(n + 5..from).collect::<Vec<_>>()
    );

    btree.remove_range(Bound::<&usize>::Unbounded, Bound::Unbounded);
    assert_eq!(btree.len(), 0);
    assert_eq!(btree.node_count(), 0);

    for i in 0..(n * 2) {
        btree.insert(i);
    }
    assert_eq!(btree.len(), n * 2);

    btree.remove_range(Bound::Excluded(&5), Bound::Excluded(&15));
    assert_eq!(
        count_range(&btree, Bound::Included(&0), Bound::Excluded(&n)),
        n - 9
    );

    btree.remove_range(Bound::Included(&n), Bound::Excluded(&(n + 10)));
    assert_eq!(
        count_range(&btree, Bound::Included(&0), Bound::Excluded(&(n * 2))),
        n * 2 - 19
    );

    let count_before = btree.len();
    btree.remove_range(Bound::Included(&(n * 3)), Bound::Excluded(&(n * 4)));
    assert_eq!(btree.len(), count_before);

    btree.remove_range(Bound::Included(&(n * 2 - 5)), Bound::Excluded(&(n * 3)));
    assert_eq!(btree.len(), count_before - 5);
    for i in 0..btree.node_count() {
        assert_eq!(btree.node_key(i), btree.node_items(i).last().unwrap());
    }
}

#[test]
fn test_remove_range_whole_leaves() {
    let mut set = BTreeSet::<u32>::with_maximum_node_size(4);
    for i in 0..40u32 {
        set.insert(i);
    }
    let leaves_before = set.node_count();
    set.remove_range(Bound::Excluded(&2u32), Bound::Included(&30u32));
    let mut iter = set.iter();
    let mut seen = vec![];
    while let Some(x) = iter.next() {
        seen.push(*x);
    }
    assert_eq!(seen, vec![0, 1, 2, 31, 32, 33, 34, 35, 36, 37, 38, 39]);
    assert!(set.node_count() < leaves_before);
    assert_eq!(set.len(), 12);
    set.remove_range(Bound::Included(&50u32), Bound::Included(&10u32));
    assert_eq!(set.len(), 12);
    assert_eq!(set.insert(10), true);
    assert_eq!(set.insert(31), false);
    assert_eq!(set.len(), 13);
}

#[test]
fn test_from_iter_and_default() {
    let set = BTreeSet::from_iter(vec![3, 1, 2, 3]);
    let mut set_iter = set.iter();
    assert_eq!(set_iter.next(), Some(&1));
    assert_eq!(set_iter.next(), Some(&2));
    assert_eq!(set_iter.next(), Some(&3));
    assert_eq!(set_iter.next(), None);
    assert_eq!(set.len(), 3);
    let empty: BTreeSet<i16> = Default::default();
    assert_eq!(empty.len(), 0);
    assert!(!empty.contains(&0i16));
}

#[test]
fn test_lower_bound_of_index() {
    let mut set = BTreeSet::<u32>::with_maximum_node_size(2);
    for i in [10u32, 20, 30, 40, 50] {
        set.insert(i);
    }
    let n = set.node_count();
    assert!(n >= 2);
    assert_eq!(set.lower_bound(0), 0);
    assert_eq!(set.lower_bound(51), n);
    let slot = set.lower_bound(30);
    assert!(set.node(slot).contains(&30u32));
    set.cut_leaf(0, 0, set.node_items(0).len());
    assert_eq!(set.node_count(), n - 1);
    assert!(!set.contains(&10u32));
}
