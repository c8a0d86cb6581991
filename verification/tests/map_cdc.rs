use indexset::change::ChangeEvent;
use indexset::element::{Ranked, Replicate};
use indexset::map::BTreeMap;
use indexset::pair::Pair;
use indexset::set::DEFAULT_INNER_SIZE;

#[derive(Debug, Default)]
struct PersistedBTreeMap<K, V>
where
    K: Ord + Clone,
    V: PartialEq,
{
    nodes: std::collections::BTreeMap<K, Vec<Pair<K, V>>>,
}

fn copies<K: Replicate, V: Replicate>(node: &[Pair<K, V>]) -> Vec<Pair<K, V>> {
    node.iter().map(|pair| pair.replicate()).collect()
}

impl<K: Ord + Clone + Replicate, V: Replicate + PartialEq> PersistedBTreeMap<K, V> {
    fn persist(&mut self, event: &ChangeEvent<Pair<K, V>>) {
        match event {
            ChangeEvent::InsertNode(max_key, node) => {
                self.nodes.insert(max_key.key.clone(), copies(node));
            }
            ChangeEvent::RemoveNode(max_key) => {
                self.nodes.remove(&max_key.key);
            }
            ChangeEvent::InsertAt(node_max, pair) => {
                if let Some(node) = self.nodes.get_mut(&node_max.key) {
                    let pos = node
                        .binary_search_by(|p| p.key.cmp(&pair.key))
                        .unwrap_or_else(|p| p);
                    node.insert(pos, pair.replicate());
                }
            }
            ChangeEvent::RemoveAt(node_max, pair) => {
                if let Some(node) = self.nodes.get_mut(&node_max.key) {
                    if let Ok(pos) = node.binary_search_by(|p| p.key.cmp(&pair.key)) {
                        node.remove(pos);
                    }
                }
            }
        }
    }

    fn contains_pair(&self, key: &K, value: &V) -> bool {
        for node in self.nodes.values() {
            if let Ok(pos) = node.binary_search_by(|p| p.key.cmp(key)) {
                if node[pos].value == *value {
                    return true;
                }
            }
        }
        false
    }
}

fn live_nodes<K, V>(map: &BTreeMap<K, V>) -> std::collections::BTreeMap<K, Vec<Pair<K, V>>>
where
    K: Ranked + Ord + Clone,
    V: Replicate,
{
    (0..map.node_count())
        .map(|i| (map.node_key(i).clone(), copies(map.node_items(i))))
        .collect()
}

#[test]
fn test_cdc_single_insert() {
    let mut map = BTreeMap::new();
    let mut mock_state = PersistedBTreeMap::default();

    let (_, events) = map.insert_cdc(1, "a");

    for event in events {
        mock_state.persist(&event);
    }

    assert!(mock_state.contains_pair(&1, &"a"));
    assert!(map.contains_key(&1));
    assert_eq!(map.get(&1).unwrap().get().value, "a");

    let expected_state = live_nodes(&map);
    assert_eq!(mock_state.nodes, expected_state);
}

#[test]
fn test_cdc_multiple_inserts() {
    let mut map = BTreeMap::new();
    let mut mock_state = PersistedBTreeMap::default();

    for i in 0..1024 {
        let (_, events) = map.insert_cdc(i, format!("val{}", i));

        for event in events {
            mock_state.persist(&event);
        }
    }

    for i in 0..1024 {
        assert!(mock_state.contains_pair(&i, &format!("val{}", i)));
        assert!(map.contains_key(&i));
        assert_eq!(map.get(&i).unwrap().get().value, format!("val{}", i));
    }

    let expected_state = live_nodes(&map);
    assert_eq!(mock_state.nodes, expected_state);
}

#[test]
fn test_cdc_updates() {
    let mut map = BTreeMap::new();
    let mut mock_state = PersistedBTreeMap::default();

    let (_, events) = map.insert_cdc(1, "a");
    for event in events {
        mock_state.persist(&event);
    }

    let (_, events) = map.insert_cdc(1, "b");
    for event in events {
        mock_state.persist(&event);
    }

    assert!(mock_state.contains_pair(&1, &"b"));
    assert!(!mock_state.contains_pair(&1, &"a"));
    assert!(map.contains_key(&1));
    assert_eq!(map.get(&1).unwrap().get().value, "b");

    let expected_state = live_nodes(&map);
    assert_eq!(mock_state.nodes, expected_state);
}

#[test]
fn test_cdc_node_splits() {
    let mut map = BTreeMap::new();
    let mut mock_state = PersistedBTreeMap::default();

    let n = DEFAULT_INNER_SIZE + 10;

    for i in 0..n {
        let (_, events) = map.insert_cdc(i, format!("val{}", i));
        for event in events {
            mock_state.persist(&event);
        }
    }

    for i in 0..n {
        assert!(mock_state.contains_pair(&i, &format!("val{}", i)));
        assert!(map.contains_key(&i));
        assert_eq!(map.get(&i).unwrap().get().value, format!("val{}", i));
    }

    assert!(mock_state.nodes.len() > 1);

    let expected_state = live_nodes(&map);
    assert_eq!(mock_state.nodes, expected_state);
}

#[test]
fn test_cdc_removals_replay() {
    let mut map = BTreeMap::new();
    let mut mock_state = PersistedBTreeMap::default();
    for i in 0..40usize {
        let (_, events) = map.insert_cdc(i, i * 10);
        for event in events {
            mock_state.persist(&event);
        }
    }
    for i in (0..40usize).rev().step_by(3) {
        let (removed, events) = map.remove_cdc(&i);
        assert_eq!(removed, Some((i, i * 10)));
        for event in events {
            mock_state.persist(&event);
        }
    }
    assert_eq!(mock_state.nodes, live_nodes(&map));
    assert_eq!(map.len(), 40 - 14);
}

#[test]
fn test_first_insert_events() {
    let mut map = BTreeMap::new();
    let (previous, events) = map.insert_cdc(1, "a");
    assert_eq!(previous, None);
    assert_eq!(
        events,
        vec![ChangeEvent::InsertNode(
            Pair { key: 1, value: "a" },
            vec![Pair { key: 1, value: "a" }]
        )]
    );
    assert_eq!(map.len(), 1);
    assert_eq!(map.get(&1).unwrap().get().value, "a");
}

#[test]
fn test_overwrite_events() {
    let mut map = BTreeMap::new();
    map.insert_cdc(1, "a");
    let (previous, events) = map.insert_cdc(1, "b");
    assert_eq!(previous, Some("a"));
    assert_eq!(
        events,
        vec![
            ChangeEvent::RemoveAt(Pair { key: 1, value: "a" }, Pair { key: 1, value: "a" }),
            ChangeEvent::InsertAt(Pair { key: 1, value: "a" }, Pair { key: 1, value: "b" }),
        ]
    );
    assert_eq!(map.get(&1).unwrap().get().value, "b");
    assert_eq!(map.len(), 1);
}

#[test]
fn test_split_batch() {
    let mut map = BTreeMap::new();
    let mut split_batches = 0;
    for i in 0..1034usize {
        let (_, events) = map.insert_cdc(i, i);
        let removed = events
            .iter()
            .filter(|e| matches!(e, ChangeEvent::RemoveNode(_)))
            .count();
        let inserted = events
            .iter()
            .filter(|e| matches!(e, ChangeEvent::InsertNode(_, _)))
            .count();
        if events.len() == 3 && removed == 1 && inserted == 2 {
            split_batches += 1;
        }
    }
    assert_eq!(map.len(), 1034);
    assert!(map.node_count() >= 2);
    assert_eq!(split_batches, 1);
    for i in 0..1034usize {
        assert!(map.contains_key(&i));
    }
    for i in 0..map.node_count() {
        assert!(map.node_items(i).len() <= 1024);
    }
}

#[test]
fn test_map_replace_returns_previous() {
    let mut map = BTreeMap::new();
    assert_eq!(map.insert(37, "a"), None);
    assert_eq!(map.len() == 0, false);
    map.insert(37, "b");
    assert_eq!(map.insert(37, "c"), Some("b"));
    assert_eq!(map.get(&37).unwrap().get().value, "c");
    assert_eq!(map.len(), 1);
}

#[test]
fn test_map_remove() {
    let mut map = BTreeMap::new();
    map.insert(1, "a");
    assert_eq!(map.remove(&1), Some((1, "a")));
    assert_eq!(map.remove(&1), None);
    assert_eq!(map.len(), 0);
    assert_eq!(map.node_count(), 0);
}

#[test]
fn test_map_contains_key() {
    let mut map = BTreeMap::new();
    map.insert(1, "a");
    assert_eq!(map.contains_key(&1), true);
    assert_eq!(map.contains_key(&2), false);
    assert!(map.get(&2).is_none());
}

#[test]
fn test_map_iter_sorted() {
    let mut map = BTreeMap::new();
    map.insert(3, "c");
    map.insert(2, "b");
    map.insert(1, "a");
    let mut iter = map.iter();
    let (first_key, first_value) = iter.next().unwrap();
    assert_eq!((*first_key, *first_value), (1, "a"));
    assert_eq!(iter.next_back(), Some((&3, &"c")));
    assert_eq!(iter.next(), Some((&2, &"b")));
    assert_eq!(iter.next(), None);
    assert_eq!(iter.next_back(), None);
}

#[test]
fn test_map_range() {
    let mut map = BTreeMap::new();
    for i in 0..20u32 {
        map.insert(i, i + 100);
    }
    let mut range = map.range(
        indexset::element::Bound::Excluded(&4u32),
        indexset::element::Bound::Included(&7u32),
    );
    assert_eq!(range.next(), Some((&5, &105)));
    assert_eq!(range.next_back(), Some((&7, &107)));
    assert_eq!(range.next(), Some((&6, &106)));
    assert_eq!(range.next(), None);
    assert_eq!(range.next_back(), None);
}

#[test]
fn test_map_default_is_empty() {
    let map: BTreeMap<u8, char> = Default::default();
    assert_eq!(map.len(), 0);
    assert_eq!(map.node_count(), 0);
    assert!(map.iter().next().is_none());
}
