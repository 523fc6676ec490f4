use containers::binary_tree::BinaryTree;

fn value_at(tree: &BinaryTree<i32>, path: &str) -> Option<i32> {
    let mut current = tree;
    for step in path.chars() {
        let node = current.root()?;
        current = if step == 'L' { node.left() } else { node.right() };
    }
    current.root().map(|node| *node.value())
}

#[test]
fn test_new_with_value() {
    let tree = BinaryTree::new(Some(5));
    assert_eq!(*tree.root().unwrap().value(), 5);
}

#[test]
fn test_new_without_value() {
    let tree = BinaryTree::<i32>::new(None);
    assert!(tree.root().is_none());
}

#[test]
fn test_insert() {
    let mut tree = BinaryTree::new(Some(5));
    tree.insert(3);
    tree.insert(7);
    assert_eq!(*tree.root().unwrap().left().root().unwrap().value(), 3);
    assert_eq!(*tree.root().unwrap().right().root().unwrap().value(), 7);
}

#[test]
fn test_contains() {
    let mut tree = BinaryTree::new(Some(5));
    tree.insert(3);
    tree.insert(7);
    assert!(tree.contains(5));
    assert!(tree.contains(3));
    assert!(tree.contains(7));
    assert!(!tree.contains(8));
}

#[test]
fn tree_new_with_value_has_one_node() {
    let tree = BinaryTree::new(Some(5));
    let root = tree.root().unwrap();
    assert!(root.left().root().is_none());
    assert!(root.right().root().is_none());
}

#[test]
fn tree_insert_into_empty_makes_the_root() {
    let mut tree = BinaryTree::<i32>::new(None);
    assert!(!tree.contains(4));
    tree.insert(4);
    assert_eq!(value_at(&tree, ""), Some(4));
    assert_eq!(value_at(&tree, "L"), None);
    assert_eq!(value_at(&tree, "R"), None);
    assert!(tree.contains(4));
}

#[test]
fn tree_insert_descends_left_and_right() {
    let mut tree = BinaryTree::new(Some(50));
    for v in [30, 70, 20, 40, 60, 80, 35] {
        tree.insert(v);
    }
    assert_eq!(value_at(&tree, ""), Some(50));
    assert_eq!(value_at(&tree, "L"), Some(30));
    assert_eq!(value_at(&tree, "R"), Some(70));
    assert_eq!(value_at(&tree, "LL"), Some(20));
    assert_eq!(value_at(&tree, "LR"), Some(40));
    assert_eq!(value_at(&tree, "RL"), Some(60));
    assert_eq!(value_at(&tree, "RR"), Some(80));
    assert_eq!(value_at(&tree, "LRL"), Some(35));
    assert_eq!(value_at(&tree, "LRR"), None);
    assert_eq!(value_at(&tree, "LLL"), None);
}

#[test]
fn tree_keeps_equal_values_on_the_right() {
    let mut tree = BinaryTree::new(Some(5));
    tree.insert(5);
    tree.insert(5);
    tree.insert(3);
    tree.insert(3);
    assert_eq!(value_at(&tree, "R"), Some(5));
    assert_eq!(value_at(&tree, "RR"), Some(5));
    assert_eq!(value_at(&tree, "L"), Some(3));
    assert_eq!(value_at(&tree, "LR"), Some(3));
    assert_eq!(value_at(&tree, "LL"), None);
    assert_eq!(value_at(&tree, "RL"), None);
}

#[test]
fn tree_without_rebalancing_grows_a_chain() {
    let mut tree = BinaryTree::<i32>::new(None);
    for v in 1..=6 {
        tree.insert(v);
    }
    assert_eq!(value_at(&tree, "RRRRR"), Some(6));
    assert_eq!(value_at(&tree, "L"), None);
    assert_eq!(value_at(&tree, "RL"), None);
}

#[test]
fn tree_contains_exactly_the_inserted_values() {
    let inserted = [41, -7, 12, 99, 0, 12, 63, -100, 5];
    let mut tree = BinaryTree::<i32>::new(None);
    for v in inserted {
        tree.insert(v);
    }
    for probe in -120..=120 {
        assert_eq!(tree.contains(probe), inserted.contains(&probe));
    }
}

#[test]
fn tree_contains_leaves_the_tree_as_it_is() {
    let mut tree = BinaryTree::new(Some(2));
    tree.insert(1);
    tree.insert(3);
    assert!(tree.contains(3));
    assert!(!tree.contains(4));
    assert_eq!(value_at(&tree, ""), Some(2));
    assert_eq!(value_at(&tree, "L"), Some(1));
    assert_eq!(value_at(&tree, "R"), Some(3));
    assert_eq!(value_at(&tree, "RR"), None);
}

#[test]
fn tree_of_strings() {
    let mut tree = BinaryTree::new(Some("m".to_string()));
    tree.insert("c".to_string());
    tree.insert("x".to_string());
    assert!(tree.contains("c".to_string()));
    assert!(!tree.contains("d".to_string()));
    assert_eq!(tree.root().unwrap().left().root().unwrap().value(), "c");
}
