use indexset::element::{Bound, Ranked, Replicate};
use indexset::node::Node;
use indexset::pair::Pair;

fn node_of(items: Vec<u32>) -> Node<u32> {
    Node { items }
}

#[test]
fn test_node_insert_positions() {
    let mut node = node_of(vec![10, 20, 30]);
    assert_eq!(node.insert(25), (true, 2));
    assert_eq!(node.items, vec![10, 20, 25, 30]);
    assert_eq!(node.insert(20), (false, 1));
    assert_eq!(node.items, vec![10, 20, 25, 30]);
    assert_eq!(node.insert(5), (true, 0));
    assert_eq!(node.insert(40), (true, 5));
    assert_eq!(node.items, vec![5, 10, 20, 25, 30, 40]);
}

#[test]
fn test_node_replace_and_put() {
    let mut node = Node { items: vec![Pair { key: 1u8, value: "a" }, Pair { key: 3u8, value: "c" }] };
    assert_eq!(
        node.replace(1, Pair { key: 3, value: "z" }),
        Some(Pair { key: 3, value: "c" })
    );
    assert_eq!(node.replace(2, Pair { key: 9, value: "q" }), None);
    assert_eq!(node.items.len(), 2);
    assert_eq!(
        node.put(Pair { key: 1, value: "b" }),
        (Some(Pair { key: 1, value: "a" }), 0)
    );
    assert_eq!(node.put(Pair { key: 2, value: "m" }), (None, 1));
    assert_eq!(
        node.items,
        vec![
            Pair { key: 1, value: "b" },
            Pair { key: 2, value: "m" },
            Pair { key: 3, value: "z" }
        ]
    );
}

#[test]
fn test_node_delete_and_select() {
    let mut node = node_of(vec![10, 20, 30]);
    assert_eq!(node.try_select(&20u32), Some(1));
    assert_eq!(node.try_select(&21u32), None);
    assert!(node.contains(&30u32));
    assert!(!node.contains(&31u32));
    assert_eq!(node.delete(&20u32), Some(20));
    assert_eq!(node.delete(&20u32), None);
    assert_eq!(node.items, vec![10, 30]);
    assert_eq!(node.last(), Some(&30));
    assert_eq!(node.len(), 2);
}

#[test]
fn test_node_rank() {
    let node = node_of(vec![10, 20, 30]);
    assert_eq!(node.rank(&Bound::Included(&20u32), true), 1);
    assert_eq!(node.rank(&Bound::Excluded(&20u32), true), 2);
    assert_eq!(node.rank(&Bound::Included(&20u32), false), 2);
    assert_eq!(node.rank(&Bound::Excluded(&20u32), false), 1);
    assert_eq!(node.rank(&Bound::<&u32>::Unbounded, true), 0);
    assert_eq!(node.rank(&Bound::<&u32>::Unbounded, false), 3);
    assert_eq!(node.rank(&Bound::Included(&15u32), true), 1);
    assert_eq!(node.rank(&Bound::Excluded(&35u32), false), 3);
    assert_eq!(node.search(31), 3);
    assert_eq!(node.search_above(30), 3);
    assert_eq!(node.search_above(9), 0);
}

#[test]
fn test_node_halve() {
    let mut node = node_of(vec![1, 2, 3, 4, 5]);
    let upper = node.halve();
    assert_eq!(node.items, vec![1, 2]);
    assert_eq!(upper, vec![3, 4, 5]);
    let mut empty = Node::<u32>::new();
    assert_eq!(empty.halve(), Vec::<u32>::new());
    assert_eq!(empty.last(), None);
}

#[test]
fn test_ranks_and_copies() {
    assert_eq!(7usize.rank_of(), 7);
    assert_eq!((-3i32).rank_of(), -3);
    assert_eq!(u64::MAX.rank_of(), u64::MAX as i128);
    assert_eq!(i64::MIN.rank_of(), i64::MIN as i128);
    assert_eq!(Pair { key: 4u16, value: "x" }.rank_of(), 4);
    assert_eq!(String::from("abc").replicate(), "abc");
    assert_eq!("abc".replicate(), "abc");
    assert_eq!(
        Pair { key: 4u16, value: String::from("x") }.replicate(),
        Pair { key: 4u16, value: String::from("x") }
    );
}
