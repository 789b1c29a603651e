use data_structures::binary_search_tree::BinarySearchTree;

#[test]
fn binary_search_tree_test() {
    let mut tree = BinarySearchTree::default();
    tree.insert(7);
    tree.insert(98);
    tree.insert(67);
    tree.insert(54);
    tree.insert(34);
    tree.insert(29);
    tree.insert(19);
    tree.insert(93);
    tree.insert(77);
    assert_eq!(true, tree.search(67));
    assert_eq!(false, tree.search(11));
    let mut values: Vec<&i32> = Vec::new();
    let mut it = tree.iter();
    while let Some(v) = it.next() {
        values.push(v);
    }
    println!("{:?}", values);
}

#[test]
fn iteration_is_sorted() {
    let mut tree = BinarySearchTree::new();
    for v in [5, 3, 8, 1, 4, 7, 9, 2, 6] {
        tree.insert(v);
    }
    let mut values: Vec<i32> = Vec::new();
    let mut it = tree.iter();
    while let Some(v) = it.next() {
        values.push(*v);
    }
    assert_eq!(values, vec![1, 2, 3, 4, 5, 6, 7, 8, 9]);
}

#[test]
fn empty_tree_queries() {
    let tree: BinarySearchTree<i32> = BinarySearchTree::new();
    assert!(!tree.search(1));
    assert_eq!(tree.minimum(), None);
    assert_eq!(tree.maximum(), None);
    assert_eq!(tree.floor(5), None);
    assert_eq!(tree.ceiling(5), None);
    let mut it = tree.iter();
    assert_eq!(it.next(), None);
    assert_eq!(it.next(), None);
}

#[test]
fn minimum_and_maximum() {
    let mut tree = BinarySearchTree::new();
    for v in [41, 13, 85, 2, 64] {
        tree.insert(v);
    }
    assert_eq!(tree.minimum(), Some(&2));
    assert_eq!(tree.maximum(), Some(&85));
}

#[test]
fn floor_and_ceiling() {
    let mut tree = BinarySearchTree::new();
    for v in [7, 98, 67, 54, 34, 29, 19, 93, 77] {
        tree.insert(v);
    }
    assert_eq!(tree.floor(60), Some(&54));
    assert_eq!(tree.ceiling(60), Some(&67));
    assert_eq!(tree.floor(67), Some(&67));
    assert_eq!(tree.ceiling(67), Some(&67));
    assert_eq!(tree.floor(5), None);
    assert_eq!(tree.ceiling(100), None);
    assert_eq!(tree.floor(200), Some(&98));
    assert_eq!(tree.ceiling(1), Some(&7));
}

#[test]
fn duplicate_insert_keeps_search_working() {
    let mut tree = BinarySearchTree::new();
    tree.insert(5);
    tree.insert(5);
    tree.insert(3);
    assert!(tree.search(5));
    assert!(tree.search(3));
    assert!(!tree.search(4));
}

#[test]
fn duplicates_are_kept_one_node_per_insert() {
    let mut tree = BinarySearchTree::new();
    tree.insert(5);
    tree.insert(5);
    tree.insert(3);
    tree.insert(5);
    let mut values: Vec<i32> = Vec::new();
    let mut it = tree.iter();
    while let Some(v) = it.next() {
        values.push(*v);
    }
    assert_eq!(values, vec![3, 5, 5, 5]);
}
