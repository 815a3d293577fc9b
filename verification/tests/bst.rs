use tree_playground::bst::{BstNode, BstSet};

fn prepare_minimal_tree() -> BstSet {
    let mut tree = BstSet::default();
    tree.insert(42);
    tree.insert(15);
    tree.insert(23);
    tree.insert(55);
    tree
}

fn prepare_tree() -> BstSet {
    let mut tree = BstSet::default();
    tree.insert(42);
    tree.insert(15);
    tree.insert(21);
    tree.insert(55);
    tree.insert(48);
    tree.insert(25);
    tree.insert(18);
    tree.insert(12);
    tree.insert(8);
    tree.insert(14);
    tree.insert(96);
    tree
}

#[test]
fn test_insert() {
    let mut tree = BstSet::default();
    tree.insert(42);
    tree.insert(15);
    tree.insert(23);
    tree.insert(55);
    let sorted = tree.iter().collect();
    assert_eq!(vec![15, 23, 42, 55], sorted);
}

#[test]
fn test_search() {
    let tree = prepare_minimal_tree();
    assert!(tree.search(42));
    assert!(tree.search(23));
    assert!(!tree.search(111));
    assert!(!tree.search(-1));
}

#[test]
fn test_delete() {
    let mut tree = prepare_tree();
    assert_eq!(Some(96), tree.remove(96));
    tree = prepare_tree();
    tree.remove(15).unwrap();
    assert!(tree.remove(144).is_none());
    println!("{tree:#?}");
}

#[test]
fn bst_insert_reports_whether_added() {
    let mut tree = BstSet::default();
    assert!(tree.insert(7));
    assert!(tree.search(7));
    assert!(!tree.insert(7));
    assert_eq!(tree.iter().collect(), vec![7]);
}

#[test]
fn bst_remove_absent_changes_nothing() {
    let mut tree = prepare_tree();
    let before = tree.clone();
    assert_eq!(tree.remove(144), None);
    assert_eq!(tree, before);
    assert_eq!(BstSet::default().remove(0), None);
}

#[test]
fn bst_remove_present_takes_exactly_one() {
    let mut tree = prepare_tree();
    assert_eq!(tree.remove(15), Some(15));
    assert!(!tree.search(15));
    assert_eq!(tree.iter().collect(), vec![8, 12, 14, 18, 21, 25, 42, 48, 55, 96]);
    assert_eq!(tree.remove(15), None);
}

#[test]
fn bst_remove_root_without_children_empties_the_tree() {
    let mut tree = BstSet::default();
    tree.insert(1);
    assert_eq!(tree.remove(1), Some(1));
    assert_eq!(tree, BstSet::default());
    assert_eq!(tree.iter().collect(), Vec::<i64>::new());
}

#[test]
fn bst_remove_node_with_one_child_lifts_the_child() {
    let mut tree = BstSet::default();
    for key in [5, 3, 4] {
        tree.insert(key);
    }
    assert_eq!(tree.remove(3), Some(3));
    let mut expect = BstSet::default();
    expect.insert(5);
    expect.insert(4);
    assert_eq!(tree, expect);
}

#[test]
fn bst_remove_node_with_two_children_promotes_the_successor() {
    // the right child has no left child: it moves up itself
    let mut tree = BstSet::default();
    for key in [5, 3, 8, 9] {
        tree.insert(key);
    }
    assert_eq!(tree.remove(5), Some(5));
    let mut expect = BstSet::default();
    for key in [8, 3, 9] {
        expect.insert(key);
    }
    assert_eq!(tree, expect);

    // the successor lies deeper: it is cut out and its right child moves up
    let mut tree = BstSet::default();
    for key in [5, 3, 9, 6, 7, 10] {
        tree.insert(key);
    }
    assert_eq!(tree.remove(5), Some(5));
    let mut expect = BstSet::default();
    for key in [6, 3, 9, 7, 10] {
        expect.insert(key);
    }
    assert_eq!(tree, expect);
}

#[test]
fn bst_ascending_run_is_one_long_spine() {
    let mut tree = BstSet::default();
    for n in 1..=1000usize {
        tree.insert(n as i64);
        assert_eq!(tree.height(), n);
    }
    assert_eq!(tree.iter().collect(), (1..=1000).collect::<Vec<i64>>());
}

#[test]
fn bst_height_of_small_trees() {
    assert_eq!(BstSet::default().height(), 0);
    assert_eq!(prepare_minimal_tree().height(), 3);
    assert_eq!(prepare_tree().height(), 4);
}

#[test]
fn bst_walk_is_restartable() {
    let tree = prepare_minimal_tree();
    let mut first = tree.iter();
    assert_eq!(first.next(), Some(&15));
    assert_eq!(tree.iter().collect(), vec![15, 23, 42, 55]);
    assert_eq!(first.next(), Some(&23));
    assert_eq!(first.next(), Some(&42));
    assert_eq!(first.next(), Some(&55));
    assert_eq!(first.next(), None);
}

#[test]
fn bst_node_starts_without_children() {
    let node = BstNode::new(-3);
    assert_eq!(format!("{:?}", node), "BstNode { value: -3, left: None, right: None }");
    assert_eq!(node.clone(), node);
}

#[test]
fn bst_extreme_keys() {
    let mut tree = BstSet::default();
    for key in [0, i64::MAX, i64::MIN] {
        assert!(tree.insert(key));
    }
    assert_eq!(tree.iter().collect(), vec![i64::MIN, 0, i64::MAX]);
    assert_eq!(tree.remove(i64::MIN), Some(i64::MIN));
    assert_eq!(tree.remove(i64::MAX), Some(i64::MAX));
    assert_eq!(tree.iter().collect(), vec![0]);
}
