use std::path::Path;

use tree_playground::avl::{AvlNode, AvlSet};
use tree_playground::fixture::{join_numbers, parse_numbers};
use tree_playground::tester::{within_limit, Run};
use tree_playground::Tree;

fn built(keys: &[i64]) -> AvlSet {
    let mut tree = AvlSet::default();
    for key in keys {
        tree.insert(*key);
    }
    tree
}

fn log2_floor(n: usize) -> usize {
    let mut bits = 0;
    let mut rest = n;
    while rest > 1 {
        rest /= 2;
        bits += 1;
    }
    bits
}

#[test]
fn avl_sort_random() {
    let input = "10\n42 15 23 55 -8 15 0 9223372036854775807 -9223372036854775808 x 4";
    let expected = "-9223372036854775808 -8 0 4 15 23 42 55 9223372036854775807\n";
    let base = Path::new("..");
    let fixtures = base.join("sorting-tests").join("0.random");
    println!("Start test at path: {:?}", fixtures.join("test.0.in"));
    let data: Vec<&str> = input.lines().collect();
    let mut tree = AvlSet::default();
    let mut n = 0;
    for number in data[1].split(' ').filter_map(|x| x.parse::<i64>().ok()) {
        tree.insert(number);
        n += 1;
    }
    assert_eq!(n, 10);
    assert_eq!(parse_numbers(data[1]).len(), 10);
    let solved = tree
        .iter()
        .collect()
        .iter()
        .map(|x| x.to_string())
        .collect::<Vec<String>>()
        .join(" ");
    assert_eq!(solved, join_numbers(&tree.iter().collect()));
    let mut run = Run::new();
    assert!(run.record(expected.trim(), &solved, within_limit(run.test_number(), u8::MAX)));
    assert_eq!((run.ok(), run.failed()), (1, 0));
}

#[test]
fn avl_insert_yields_ascending_listing() {
    let tree = built(&[42, 15, 23, 55]);
    assert_eq!(tree.iter().collect(), vec![15, 23, 42, 55]);
}

#[test]
fn avl_insert_reports_whether_added() {
    let mut tree = AvlSet::default();
    assert!(tree.insert(7));
    assert!(tree.search(7));
    assert!(!tree.insert(7));
    assert_eq!(tree.iter().collect(), vec![7]);
}

#[test]
fn avl_search_finds_only_what_is_there() {
    let tree = built(&[42, 15, 23, 55]);
    assert!(tree.search(42));
    assert!(tree.search(23));
    assert!(!tree.search(111));
    assert!(!tree.search(-1));
    assert!(!AvlSet::default().search(0));
}

#[test]
fn avl_remove_absent_gives_none() {
    let mut tree = built(&[42, 15, 21, 55, 48, 25, 18, 12, 8, 14, 96]);
    assert_eq!(tree.remove(144), None);
    assert_eq!(tree.iter().collect().len(), 11);
    assert_eq!(AvlSet::default().remove(1), None);
}

#[test]
fn avl_remove_present_gives_it_back() {
    let mut tree = built(&[42, 15, 21, 55, 48, 25, 18, 12, 8, 14, 96]);
    assert_eq!(tree.remove(96), Some(96));
    assert_eq!(tree.remove(15), Some(15));
    assert!(!tree.search(15));
    assert!(!tree.search(96));
    assert_eq!(tree.iter().collect(), vec![8, 12, 14, 18, 21, 25, 42, 48, 55]);
}

#[test]
fn avl_remove_every_shape_of_node() {
    // a leaf, a node with one child, a node whose right child is its
    // successor, a node whose successor lies deeper, and the root
    let keys = [50, 30, 70, 20, 40, 60, 80, 10, 35, 45, 65, 85, 33];
    let mut expect: Vec<i64> = keys.to_vec();
    expect.sort();
    let mut tree = built(&keys);
    for key in [10, 20, 70, 30, 50, 33, 85, 80, 60, 65, 40, 45, 35] {
        assert_eq!(tree.remove(key), Some(key));
        expect.retain(|x| *x != key);
        assert_eq!(tree.iter().collect(), expect);
        let n = expect.len();
        assert!(tree.height() <= 2 * log2_floor(n + 1) + 1);
    }
    assert_eq!(tree.height(), 0);
}

#[test]
fn avl_ascending_run_stays_low() {
    let mut tree = AvlSet::default();
    for n in 1..=2000usize {
        assert!(tree.insert(n as i64));
        let height = tree.height();
        assert!(height <= 2 * log2_floor(n + 1) + 1);
        assert!(height >= log2_floor(n) + 1);
    }
    assert_eq!(tree.height(), 11);
    assert_eq!(tree.iter().collect(), (1..=2000).collect::<Vec<i64>>());
}

#[test]
fn avl_height_of_small_trees() {
    assert_eq!(AvlSet::default().height(), 0);
    assert_eq!(built(&[1]).height(), 1);
    assert_eq!(built(&[1, 2]).height(), 2);
    assert_eq!(built(&[1, 2, 3]).height(), 2);
    assert_eq!(built(&[3, 2, 1]).height(), 2);
    assert_eq!(built(&[1, 3, 2]).height(), 2);
    assert_eq!(built(&[3, 1, 2]).height(), 2);
    assert_eq!(built(&[1, 2, 3, 4, 5, 6, 7]).height(), 3);
}

#[test]
fn avl_node_records_height_on_request() {
    let mut node = AvlNode::boxed(5);
    node.update_height();
    node.rebalance();
    let copy = node.clone();
    assert_eq!(copy, node);
    assert_eq!(format!("{:?}", node), "AvlNode { value: 5, height: 1, left: None, right: None }");
}

#[test]
fn avl_walk_is_restartable() {
    let tree = built(&[3, 1, 2]);
    let mut first = tree.iter();
    assert_eq!(first.next(), Some(&1));
    let second = tree.iter();
    assert_eq!(second.collect(), vec![1, 2, 3]);
    assert_eq!(first.next(), Some(&2));
    assert_eq!(first.next(), Some(&3));
    assert_eq!(first.next(), None);
    assert_eq!(first.next(), None);
}

#[test]
fn avl_clone_is_equal_and_separate() {
    let tree = built(&[5, 1, 9]);
    let mut copy = tree.clone();
    assert_eq!(copy, tree);
    copy.insert(7);
    assert_ne!(copy, tree);
    assert_eq!(tree.iter().collect(), vec![1, 5, 9]);
}

/// Reads the printed form of a subtree off the front of `text`, holds every
/// node to the balance rule and to its recorded height, and gives the height
/// together with the keys met.
fn audit(text: &mut &str, keys: &mut Vec<i64>) -> usize {
    if let Some(rest) = text.strip_prefix("None") {
        *text = rest;
        return 0;
    }
    *text = text.strip_prefix("Some(AvlNode { value: ").unwrap();
    let end = text.find(", height: ").unwrap();
    let value: i64 = text[..end].parse().unwrap();
    *text = &text[end + 10..];
    let end = text.find(", left: ").unwrap();
    let recorded: usize = text[..end].parse().unwrap();
    *text = &text[end + 8..];
    let left = audit(text, keys);
    keys.push(value);
    *text = text.strip_prefix(", right: ").unwrap();
    let right = audit(text, keys);
    *text = text.strip_prefix(" })").unwrap();
    assert!(left <= right + 1 && right <= left + 1, "node {value} leans too far");
    assert_eq!(recorded, 1 + left.max(right), "node {value} records a wrong height");
    recorded
}

fn audited(tree: &AvlSet) -> Vec<i64> {
    let printed = format!("{:?}", tree);
    let mut text = printed.strip_prefix("AvlSet { root: ").unwrap();
    let mut keys = Vec::new();
    let height = audit(&mut text, &mut keys);
    assert_eq!(text, " }");
    assert_eq!(height, tree.height());
    assert!(keys.windows(2).all(|pair| pair[0] < pair[1]));
    keys
}

#[test]
fn avl_every_node_is_balanced_after_every_change() {
    let mut tree = AvlSet::default();
    let mut expect: Vec<i64> = Vec::new();
    let mut key: i64 = 1;
    for _ in 0..400 {
        key = (key * 7919 + 13) % 1009;
        assert_eq!(tree.insert(key), !expect.contains(&key));
        if !expect.contains(&key) {
            expect.push(key);
            expect.sort();
        }
        assert_eq!(audited(&tree), expect);
    }
    for _ in 0..600 {
        key = (key * 7919 + 13) % 1009;
        let held = expect.contains(&key);
        assert_eq!(tree.remove(key), if held { Some(key) } else { None });
        expect.retain(|x| *x != key);
        assert_eq!(audited(&tree), expect);
    }
}

#[test]
fn avl_rotations_by_case() {
    // a single turn to the left, to the right, and the two double turns
    for (keys, root) in [([1, 2, 3], 2), ([3, 2, 1], 2), ([1, 3, 2], 2), ([3, 1, 2], 2)] {
        let tree = built(&keys);
        assert_eq!(audited(&tree), vec![1, 2, 3]);
        assert!(format!("{:?}", tree).starts_with(&format!("AvlSet {{ root: Some(AvlNode {{ value: {root}, height: 2,")));
    }
    // a removal that makes the root lean by two towards a child that stands even
    let mut tree = built(&[4, 2, 6, 1, 3, 5, 7, 0]);
    for key in [5, 7, 6] {
        assert_eq!(tree.remove(key), Some(key));
        audited(&tree);
    }
    assert_eq!(
        format!("{:?}", tree),
        "AvlSet { root: Some(AvlNode { value: 2, height: 3, left: Some(AvlNode { value: 1, height: 2, left: Some(AvlNode { value: 0, height: 1, left: None, right: None }), right: None }), right: Some(AvlNode { value: 4, height: 2, left: Some(AvlNode { value: 3, height: 1, left: None, right: None }), right: None }) }) }"
    );
}
