use tinydb::btree::BPlusTree;

#[test]
fn get_missing_key_returns_none() {
    let tree: BPlusTree<&str> = BPlusTree::new(4);
    assert_eq!(tree.get(&99), None);
}

#[test]
fn insert_then_get_returns_value() {
    let mut tree = BPlusTree::new(4);
    tree.insert(42, "hello");
    assert_eq!(tree.get(&42), Some(&"hello"));
}

#[test]
fn insert_keys_get_data() {
    let mut tree = BPlusTree::new(4);
    tree.insert(10, "a");
    assert_eq!(tree.get(&10), Some(&"a"));
}

#[test]
fn insert_causes_leaf_split() {
    let mut tree = BPlusTree::new(2);
    tree.insert(1, "a");
    tree.insert(2, "b");
    tree.insert(3, "c");
    assert_eq!(tree.get(&1), Some(&"a"));
    assert_eq!(tree.get(&2), Some(&"b"));
    assert_eq!(tree.get(&3), Some(&"c"));
}

#[test]
fn insert_many_keys_causes_multiple_splits() {
    let mut tree = BPlusTree::new(2);
    for i in 1..=6 {
        tree.insert(i, i * 10);
    }
    for i in 1..=6 {
        assert_eq!(tree.get(&i), Some(&(i * 10)));
    }
    assert_eq!(tree.get(&7), None);
}

#[test]
fn get_missing_key_after_split() {
    let mut tree = BPlusTree::new(2);
    tree.insert(1, "a");
    tree.insert(3, "c");
    assert_eq!(tree.get(&2), None);
    assert_eq!(tree.get(&1), Some(&"a"));
    assert_eq!(tree.get(&3), Some(&"c"));
}

#[test]
fn insert_reverse_order() {
    let mut tree = BPlusTree::new(3);
    for i in (1..=5).rev() {
        tree.insert(i, i * 100);
    }
    for i in 1..=5 {
        assert_eq!(tree.get(&i), Some(&(i * 100)));
    }
}

#[test]
fn internal_node_split() {
    let mut tree = BPlusTree::new(2);
    for i in 1..=10 {
        tree.insert(i, i * 10);
    }
    for i in 1..=10 {
        assert_eq!(tree.get(&i), Some(&(i * 10)));
        assert_eq!(tree.get(&0), None);
        assert_eq!(tree.get(&11), None)
    }
}

#[test]
fn insert_random_order() {
    let mut tree = BPlusTree::new(3);
    let keys = [5, 1, 4, 2, 3];
    for &k in &keys {
        tree.insert(k, k * 100);
    }
    for &k in &keys {
        assert_eq!(tree.get(&k), Some(&(k * 100)));
    }
}

#[test]
fn insert_existing_key_replaces_value() {
    let mut tree = BPlusTree::new(2);
    for i in 1..=8 {
        tree.insert(i, i);
    }
    tree.insert(5, 500);
    tree.insert(1, 100);
    assert_eq!(tree.get(&5), Some(&500));
    assert_eq!(tree.get(&1), Some(&100));
    assert_eq!(tree.get(&4), Some(&4));
}

#[test]
fn small_orders_still_find_every_key() {
    for order in 0..3 {
        let mut tree = BPlusTree::new(order);
        let keys = [7, -3, 12, 0, 5, 5, i64::MIN, i64::MAX, 40, 41, 39, 2];
        for &k in &keys {
            tree.insert(k, k.wrapping_mul(3));
        }
        for &k in &keys {
            assert_eq!(tree.get(&k), Some(&k.wrapping_mul(3)));
        }
        assert_eq!(tree.get(&1), None);
        assert_eq!(tree.get(&-4), None);
    }
}

#[test]
fn many_keys_in_mixed_order() {
    let mut tree = BPlusTree::new(4);
    for i in 0..500i64 {
        let k = (i * 7919) % 1000;
        tree.insert(k, i);
    }
    for i in 0..500i64 {
        let k = (i * 7919) % 1000;
        assert_eq!(tree.get(&k), Some(&i));
    }
    assert_eq!(tree.get(&1001), None);
}
