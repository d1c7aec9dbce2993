use btree_map::map::BTreeError;
use btree_map::map::BTreeMap;
use btree_map::node::BTreeNode;

/// Number of levels from the root down to the leaves (0 for an empty map),
/// following the leftmost spine; the library guarantees all leaves share it.
fn tree_height<V>(map: &BTreeMap<V>) -> usize {
    let mut h = 0;
    let mut node: Option<&BTreeNode<V>> = map.root.as_ref();
    while let Some(n) = node {
        h += 1;
        node = if n.is_leaf {
            None
        } else {
            Some(n.children[0].as_ref())
        };
    }
    h
}

/// Check the structural invariants of every reachable node by hand: parallel
/// key/value lengths, sorted keys, child counts, occupancy, separation and
/// equal leaf depth.
fn check_node<V>(n: &BTreeNode<V>, t: usize, lo: Option<u64>, hi: Option<u64>) -> usize {
    assert_eq!(n.values.len(), n.keys.len());
    assert!(n.keys.len() <= 2 * t - 1);
    for w in n.keys.windows(2) {
        assert!(w[0] < w[1]);
    }
    for k in &n.keys {
        if let Some(lo) = lo {
            assert!(*k > lo);
        }
        if let Some(hi) = hi {
            assert!(*k < hi);
        }
    }
    if n.is_leaf {
        assert!(n.children.is_empty());
        1
    } else {
        assert_eq!(n.children.len(), n.keys.len() + 1);
        let mut depth = None;
        for (i, c) in n.children.iter().enumerate() {
            assert!(c.keys.len() >= t - 1);
            let cl = if i == 0 { lo } else { Some(n.keys[i - 1]) };
            let ch = if i == n.keys.len() { hi } else { Some(n.keys[i]) };
            let d = check_node(c, t, cl, ch);
            match depth {
                None => depth = Some(d),
                Some(prev) => assert_eq!(prev, d),
            }
        }
        depth.unwrap() + 1
    }
}

fn check_invariants<V>(map: &BTreeMap<V>, t: usize) {
    if let Some(root) = &map.root {
        assert!(root.keys.len() >= 1);
        check_node(root, t, None, None);
    }
}

#[test]
fn constructs_with_minimum_degree_two() {
    let map: BTreeMap<&str> = BTreeMap::try_new(2).unwrap();
    assert!(map.root.is_none());
    assert_eq!(tree_height(&map), 0);
}

#[test]
fn rejects_degree_below_two() {
    assert_eq!(BTreeMap::<&str>::try_new(0).unwrap_err(), BTreeError::InvalidDegree);
    assert_eq!(BTreeMap::<&str>::try_new(1).unwrap_err(), BTreeError::InvalidDegree);
    assert!(BTreeMap::<&str>::try_new(3).is_ok());
}

#[test]
fn search_on_empty_map_is_absent() {
    let map: BTreeMap<&str> = BTreeMap::new(2);
    assert_eq!(map.search(42), None);
}

#[test]
fn first_insert_creates_leaf_root() {
    let mut map = BTreeMap::new(2);
    map.insert(1, "one");
    let root = map.root.as_ref().unwrap();
    assert!(root.is_leaf);
    assert_eq!(root.keys, vec![1]);
    assert_eq!(tree_height(&map), 1);
    check_invariants(&map, 2);
}

#[test]
fn root_fills_to_capacity_without_split() {
    let mut map = BTreeMap::new(2);
    map.insert(2, "two");
    map.insert(1, "one");
    map.insert(3, "three");
    let root = map.root.as_ref().unwrap();
    assert!(root.is_leaf);
    assert_eq!(root.keys, vec![1, 2, 3]);
    assert_eq!(tree_height(&map), 1);
    check_invariants(&map, 2);
}

#[test]
fn insert_into_full_root_splits_and_grows() {
    let mut map = BTreeMap::new(2);
    map.insert(2, "two");
    map.insert(1, "one");
    map.insert(3, "three");
    assert_eq!(tree_height(&map), 1);
    map.insert(4, "four");
    assert_eq!(tree_height(&map), 2);
    let root = map.root.as_ref().unwrap();
    assert!(!root.is_leaf);
    assert_eq!(root.keys, vec![2]);
    check_invariants(&map, 2);
    for k in 1..=4 {
        assert!(map.search(k).is_some());
    }
}

#[test]
fn growth_trace() {
    let mut map = BTreeMap::new(2);
    map.insert(10, "Ten");
    map.insert(20, "Twenty");
    map.insert(5, "Five");
    {
        let root = map.root.as_ref().unwrap();
        assert!(root.is_leaf);
        assert_eq!(root.keys, vec![5, 10, 20]);
    }
    map.insert(6, "Six");
    {
        let root = map.root.as_ref().unwrap();
        assert!(!root.is_leaf);
        assert_eq!(root.keys, vec![10]);
        assert_eq!(root.children[0].keys, vec![5, 6]);
        assert_eq!(root.children[1].keys, vec![20]);
    }
    map.insert(12, "Twelve");
    {
        let root = map.root.as_ref().unwrap();
        assert_eq!(root.keys, vec![10]);
        assert_eq!(root.children[0].keys, vec![5, 6]);
        assert_eq!(root.children[1].keys, vec![12, 20]);
    }
    check_invariants(&map, 2);
}

#[test]
fn lookup_hit_after_growth_trace() {
    let mut map = BTreeMap::new(2);
    map.insert(10, "Ten");
    map.insert(20, "Twenty");
    map.insert(5, "Five");
    map.insert(6, "Six");
    map.insert(12, "Twelve");
    assert_eq!(map.search(10), Some(&"Ten"));
}

#[test]
fn lookup_miss_after_growth_trace() {
    let mut map = BTreeMap::new(2);
    map.insert(10, "Ten");
    map.insert(20, "Twenty");
    map.insert(5, "Five");
    map.insert(6, "Six");
    map.insert(12, "Twelve");
    assert_eq!(map.search(7), None);
}

#[test]
fn ascending_fill() {
    let mut map = BTreeMap::new(2);
    for k in 1..=7u64 {
        map.insert(k, k * 10);
        check_invariants(&map, 2);
    }
    assert_eq!(tree_height(&map), 2);
    for k in 1..=7u64 {
        assert_eq!(map.search(k), Some(&(k * 10)));
    }
    assert_eq!(map.search(8), None);
}

#[test]
fn descending_fill() {
    let mut map = BTreeMap::new(2);
    for k in (1..=7u64).rev() {
        map.insert(k, k * 10);
        check_invariants(&map, 2);
    }
    assert_eq!(tree_height(&map), 2);
    for k in 1..=7u64 {
        assert_eq!(map.search(k), Some(&(k * 10)));
    }
}

#[test]
fn degree_sweep_lowers_height() {
    let mut heights = Vec::new();
    for t in [2usize, 3, 5] {
        let mut map = BTreeMap::new(t);
        for k in 1..=7u64 {
            map.insert(k, k);
        }
        check_invariants(&map, t);
        for k in 1..=7u64 {
            assert_eq!(map.search(k), Some(&k));
        }
        heights.push(tree_height(&map));
    }
    assert_eq!(heights[0], 2);
    assert!(heights[0] >= heights[1]);
    assert!(heights[1] >= heights[2]);
    assert_eq!(heights[2], 1);
}

#[test]
fn in_order_keys_are_sorted_and_complete() {
    let mut map = BTreeMap::new(2);
    for k in [42u64, 7, 99, 1, 63, 20, 5, 88, 13] {
        map.insert(k, ());
    }
    let keys = map.in_order_keys();
    assert_eq!(keys, vec![1, 5, 7, 13, 20, 42, 63, 88, 99]);
}

#[test]
fn insert_overwrites_existing_key() {
    let mut map = BTreeMap::new(2);
    map.insert(5, "old");
    map.insert(5, "new");
    assert_eq!(map.search(5), Some(&"new"));
    assert_eq!(map.in_order_keys(), vec![5]);
    // also when the key sits on a separator of an internal node
    let mut map = BTreeMap::new(2);
    for k in 1..=7u64 {
        map.insert(k, 0);
    }
    let sep = map.root.as_ref().unwrap().keys[0];
    map.insert(sep, 1);
    assert_eq!(map.search(sep), Some(&1));
    check_invariants(&map, 2);
    assert_eq!(map.in_order_keys(), vec![1, 2, 3, 4, 5, 6, 7]);
}

#[test]
fn insert_then_search_round_trip() {
    let mut map = BTreeMap::new(3);
    let keys: Vec<u64> = (0..60u64).map(|i| (i * 37) % 127).collect();
    for (i, k) in keys.iter().enumerate() {
        map.insert(*k, i);
    }
    check_invariants(&map, 3);
    for (i, k) in keys.iter().enumerate() {
        assert_eq!(map.search(*k), Some(&i));
    }
    for probe in 127..140u64 {
        assert_eq!(map.search(probe), None);
    }
}
