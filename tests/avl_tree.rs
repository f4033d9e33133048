use avl_tree::AVLTree;

fn values_of(tree: &AVLTree<i32>) -> Vec<i32> {
    let mut out = Vec::new();
    let mut it = tree.iter();
    while let Some(v) = it.next() {
        out.push(*v);
    }
    out
}

#[test]
fn sorted() {
    let tree: AVLTree<i32> = AVLTree::from_values((1..8).rev().collect());
    assert!((1..8).eq(values_of(&tree).into_iter()));
}

#[test]
fn balanced() {
    let mut tree: AVLTree<i32> = AVLTree::from_values((1..8).collect());
    assert!(tree.balanced());
    for x in 1..8 {
        tree.remove(&x);
        assert!(tree.balanced());
    }
}

#[test]
fn descending_inserts_iterate_ascending() {
    let mut tree = AVLTree::new();
    for x in (1..8).rev() {
        assert!(tree.insert(x));
    }
    assert_eq!(values_of(&tree), vec![1, 2, 3, 4, 5, 6, 7]);
    assert!(tree.balanced());
}

#[test]
fn remove_all_in_order_stays_balanced_and_empties() {
    let mut tree = AVLTree::new();
    for x in 1..8 {
        tree.insert(x);
    }
    for x in 1..8 {
        assert!(tree.remove(&x));
        assert!(tree.balanced());
        assert!(!tree.contains(&x));
    }
    assert!(tree.is_empty());
    assert_eq!(tree.len(), 0);
}

#[test]
fn duplicate_insert_returns_false() {
    let mut tree = AVLTree::new();
    assert!(tree.insert(1));
    assert!(!tree.insert(1));
    assert_eq!(tree.len(), 1);
    assert_eq!(values_of(&tree), vec![1]);
}

#[test]
fn remove_from_empty_returns_false() {
    let mut tree: AVLTree<i32> = AVLTree::new();
    assert!(!tree.remove(&1));
    assert_eq!(tree.len(), 0);
    assert!(tree.is_empty());
}

#[test]
fn duplicate_insert_keeps_contents() {
    let mut tree = AVLTree::from_values(vec![5, 3, 8, 1, 4]);
    let before = values_of(&tree);
    assert!(!tree.insert(4));
    assert_eq!(values_of(&tree), before);
    assert_eq!(tree.len(), 5);
    assert!(tree.balanced());
}

#[test]
fn missing_remove_keeps_contents() {
    let mut tree = AVLTree::from_values(vec![5, 3, 8, 1, 4]);
    let before = values_of(&tree);
    assert!(!tree.remove(&7));
    assert_eq!(values_of(&tree), before);
    assert_eq!(tree.len(), 5);
}

#[test]
fn round_trip_count() {
    let values: Vec<i32> = (0..200).map(|i| (i * 37) % 200).collect();
    let mut tree = AVLTree::new();
    for &v in &values {
        assert!(tree.insert(v));
    }
    assert_eq!(tree.len(), values.len());
    assert!(tree.balanced());
    for &v in &values {
        assert!(tree.remove(&v));
        assert!(tree.balanced());
    }
    assert_eq!(tree.len(), 0);
    assert!(tree.is_empty());
}

#[test]
fn order_after_mixed_operations() {
    let mut tree = AVLTree::new();
    for i in 0..300 {
        tree.insert((i * 7919) % 1000);
    }
    for i in 0..100 {
        tree.remove(&((i * 13) % 1000));
    }
    let vals = values_of(&tree);
    assert!(vals.windows(2).all(|w| w[0] < w[1]));
    assert_eq!(vals.len(), tree.len());
    assert!(tree.balanced());
}

#[test]
fn contains_finds_inserted_values() {
    let mut tree = AVLTree::new();
    tree.insert(1);
    tree.insert(2);
    assert!(tree.contains(&1));
    assert!(tree.contains(&2));
    assert!(!tree.contains(&3));
    assert!(!AVLTree::<i32>::new().contains(&1));
}

#[test]
fn remove_node_with_two_children() {
    let mut tree = AVLTree::from_values(vec![4, 2, 6, 1, 3, 5, 7]);
    assert!(tree.remove(&4));
    assert_eq!(values_of(&tree), vec![1, 2, 3, 5, 6, 7]);
    assert!(tree.remove(&2));
    assert_eq!(values_of(&tree), vec![1, 3, 5, 6, 7]);
    assert!(tree.balanced());
    assert_eq!(tree.len(), 5);
}

#[test]
fn from_values_skips_repeats() {
    let tree = AVLTree::from_values(vec![3, 1, 3, 2, 1]);
    assert_eq!(tree.len(), 3);
    assert_eq!(values_of(&tree), vec![1, 2, 3]);
}

#[test]
fn default_is_empty() {
    let tree: AVLTree<i32> = Default::default();
    assert!(tree.is_empty());
    assert_eq!(tree.len(), 0);
    assert!(values_of(&tree).is_empty());
}

#[test]
fn iterator_stays_exhausted() {
    let tree = AVLTree::from_values(vec![2, 1, 3]);
    let mut it = tree.iter();
    assert_eq!(it.next(), Some(&1));
    assert_eq!(it.next(), Some(&2));
    assert_eq!(it.next(), Some(&3));
    assert_eq!(it.next(), None);
    assert_eq!(it.next(), None);
}

#[test]
fn ascending_inserts_stay_balanced() {
    let mut tree = AVLTree::new();
    for x in 0..1000 {
        tree.insert(x);
        assert!(tree.balanced());
    }
    assert_eq!(tree.len(), 1000);
}

#[test]
fn works_with_strings() {
    let mut tree = AVLTree::new();
    tree.insert(String::from("pear"));
    tree.insert(String::from("apple"));
    tree.insert(String::from("fig"));
    assert!(tree.contains(&String::from("fig")));
    let mut it = tree.iter();
    assert_eq!(it.next().map(|s| s.as_str()), Some("apple"));
    assert_eq!(it.next().map(|s| s.as_str()), Some("fig"));
    assert_eq!(it.next().map(|s| s.as_str()), Some("pear"));
    assert_eq!(it.next(), None);
}
