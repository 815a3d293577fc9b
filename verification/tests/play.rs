use tree_playground::avl::AvlSet;
use tree_playground::bst::BstSet;
use tree_playground::play::{insert_sorted, PlayCounts};
use tree_playground::treap::TreapSet;
use tree_playground::{play_random_numbers, play_sorted_numbers, sorted_percent, Tree};

#[test]
fn sorted_percent_of_one_item_is_full() {
    assert_eq!(sorted_percent(&vec![5]), 100);
}

#[test]
fn sorted_percent_counts_neighbours_in_order() {
    assert_eq!(sorted_percent(&vec![1, 2, 3, 4]), 100);
    assert_eq!(sorted_percent(&vec![4, 3, 2, 1]), 0);
    assert_eq!(sorted_percent(&vec![1, 1]), 100);
    assert_eq!(sorted_percent(&vec![1, 3, 2, 4]), 66);
    assert_eq!(sorted_percent(&vec![2, 1, 3]), 50);
    assert_eq!(sorted_percent(&vec![i64::MAX, i64::MIN, 0, 0, -1, 7, 7, 8]), 71);
}

#[test]
fn sorted_percent_of_a_walk_is_full() {
    let mut tree = AvlSet::default();
    for key in [9, 3, 7, 1] {
        tree.insert(key);
    }
    assert_eq!(sorted_percent(&tree.iter().collect()), 100);
}

#[test]
fn play_sorted_numbers_inserts_each_key_once() {
    let mut tree = BstSet::default();
    let counts = play_sorted_numbers(&mut tree, 200);
    assert_eq!(counts.inserted, 200);
    assert_eq!(counts.found, 20);
    assert!(counts.removed >= 1 && counts.removed <= 20);
    assert_eq!(tree.iter().collect().len(), 200 - counts.removed);

    let mut tree = AvlSet::default();
    let counts = play_sorted_numbers(&mut tree, 200);
    assert_eq!(counts.inserted, 200);
    assert_eq!(counts.found, 20);
    assert_eq!(tree.iter().collect().len(), 200 - counts.removed);
}

#[test]
fn play_sorted_numbers_on_a_treap_reports_every_removal() {
    let mut tree = TreapSet::default();
    let counts = play_sorted_numbers(&mut tree, 100);
    assert_eq!(counts.inserted, 100);
    assert_eq!(counts.found, 10);
    assert_eq!(counts.removed, 10);
    let left = tree.iter().collect().len();
    assert!(left >= 90 && left < 100);
}

#[test]
fn play_random_numbers_stays_within_its_counts() {
    let mut tree = AvlSet::default();
    let counts = play_random_numbers(&mut tree, 300);
    assert!(counts.inserted >= 1 && counts.inserted <= 300);
    assert!(counts.found <= 30);
    assert!(counts.removed <= 30);
    let keys = tree.iter().collect();
    assert!(keys.len() <= counts.inserted);
    assert!(keys.len() + 30 >= counts.inserted);
    assert!(keys.iter().all(|key| 0 <= *key && *key < 900));
    assert_eq!(sorted_percent(&keys), 100);
}

#[test]
fn play_with_nothing_to_do_counts_nothing() {
    let mut tree = BstSet::default();
    let none = PlayCounts { inserted: 0, found: 0, removed: 0 };
    assert_eq!(play_random_numbers(&mut tree, 0), none);
    assert_eq!(play_sorted_numbers(&mut tree, 0), none);
    assert_eq!(play_sorted_numbers(&mut tree, 9), PlayCounts { inserted: 9, found: 0, removed: 0 });
}

#[test]
fn insert_sorted_skips_what_is_there() {
    let mut tree = BstSet::default();
    tree.insert(3);
    assert_eq!(insert_sorted(&mut tree, 5), 4);
    assert_eq!(tree.iter().collect(), vec![0, 1, 2, 3, 4]);
}

#[test]
fn engines_serve_one_contract() {
    fn exercise(tree: &mut impl Tree) -> Vec<bool> {
        vec![
            tree.insert(2),
            tree.insert(1),
            tree.search(1),
            tree.remove(1) == Some(1),
            tree.search(1),
        ]
    }
    let expect = vec![true, true, true, true, false];
    assert_eq!(exercise(&mut BstSet::default()), expect);
    assert_eq!(exercise(&mut AvlSet::default()), expect);
    assert_eq!(exercise(&mut TreapSet::default()), expect);
}
