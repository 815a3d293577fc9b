use tree_playground::treap::{insert, insert_with_priority, merge, remove, split, Node, Treap, TreapSet};
use tree_playground::Tree;

fn keys_of(t: &Treap) -> Vec<i64> {
    // a treap held in a set can be walked
    fn walk(t: &Treap, out: &mut Vec<String>) {
        out.push(format!("{:?}", t));
    }
    let mut text = Vec::new();
    walk(t, &mut text);
    let mut found: Vec<(usize, i64)> = Vec::new();
    let all = text.join("");
    let mut rest = all.as_str();
    while let Some(at) = rest.find("value: ") {
        rest = &rest[at + 7..];
        let end = rest.find(',').unwrap();
        found.push((all.len() - rest.len(), rest[..end].parse().unwrap()));
    }
    found.iter().map(|p| p.1).collect()
}

fn sorted(mut keys: Vec<i64>) -> Vec<i64> {
    keys.sort();
    keys
}

fn lone(value: i64, priority: usize) -> Treap {
    Some(Box::new(Node::with_priority(value, priority)))
}

#[test]
fn treap_insert_yields_ascending_listing() {
    let mut tree = TreapSet::default();
    for key in [42, 15, 23, 55] {
        assert!(tree.insert(key));
    }
    assert_eq!(tree.iter().collect(), vec![15, 23, 42, 55]);
    assert!(tree.search(23));
    assert!(!tree.search(24));
}

#[test]
fn treap_keeps_a_key_inserted_twice() {
    let mut tree = TreapSet::default();
    assert!(tree.insert(5));
    assert!(tree.insert(5));
    assert!(tree.insert(3));
    assert_eq!(tree.iter().collect(), vec![3, 5, 5]);
    assert_eq!(tree.remove(5), Some(5));
    assert!(tree.search(5));
    assert_eq!(tree.iter().collect(), vec![3, 5]);
    assert_eq!(tree.remove(5), Some(5));
    assert!(!tree.search(5));
}

#[test]
fn treap_remove_reports_also_what_was_not_there() {
    let mut tree = TreapSet::default();
    assert_eq!(tree.remove(9), Some(9));
    tree.insert(1);
    assert_eq!(tree.remove(9), Some(9));
    assert_eq!(tree.iter().collect(), vec![1]);
}

#[test]
fn treap_shape_follows_the_priorities() {
    let mut tree = TreapSet::default();
    tree.insert_with_priority(2, 10);
    tree.insert_with_priority(1, 30);
    tree.insert_with_priority(3, 20);
    let text = format!("{:?}", tree);
    // the highest priority is at the root, the next one below it to the right
    assert!(text.starts_with("TreapSet { root: Some(Node { value: 1, priority: 30, left: None, right: Some(Node { value: 3, priority: 20, left: Some(Node { value: 2, priority: 10,"));
    assert_eq!(tree.iter().collect(), vec![1, 2, 3]);
}

#[test]
fn treap_random_priorities_keep_order() {
    let mut tree = TreapSet::default();
    let mut expect = Vec::new();
    for i in 0..500i64 {
        let key = (i * 7919) % 1009;
        tree.insert(key);
        expect.push(key);
    }
    expect.sort();
    assert_eq!(tree.iter().collect(), expect);
    for i in 0..250i64 {
        let key = (i * 7919) % 1009;
        assert_eq!(tree.remove(key), Some(key));
        let at = expect.iter().position(|x| *x == key).unwrap();
        expect.remove(at);
    }
    assert_eq!(tree.iter().collect(), expect);
}

#[test]
fn treap_split_parts_by_the_pivot() {
    let mut t: Treap = None;
    for (key, priority) in [(5, 50), (2, 70), (8, 10), (5, 5), (9, 90), (1, 1)] {
        t = insert_with_priority(key, priority, t);
    }
    let (low, high) = split(t, 5);
    assert_eq!(sorted(keys_of(&low)), vec![1, 2, 5, 5]);
    assert_eq!(sorted(keys_of(&high)), vec![8, 9]);
    let (none, all) = split(high, 0);
    assert_eq!(none, None);
    assert_eq!(sorted(keys_of(&all)), vec![8, 9]);
    assert_eq!(split(None, 3), (None, None));
}

#[test]
fn treap_merge_puts_higher_priority_on_top() {
    let merged = merge(lone(1, 5), lone(2, 9));
    assert_eq!(
        format!("{:?}", merged),
        "Some(Node { value: 2, priority: 9, left: Some(Node { value: 1, priority: 5, left: None, right: None }), right: None })"
    );
    let merged = merge(lone(1, 9), lone(2, 5));
    assert_eq!(
        format!("{:?}", merged),
        "Some(Node { value: 1, priority: 9, left: None, right: Some(Node { value: 2, priority: 5, left: None, right: None }) })"
    );
    // the right root wins a tie
    let merged = merge(lone(1, 7), lone(2, 7));
    assert!(format!("{:?}", merged).starts_with("Some(Node { value: 2,"));
    assert_eq!(merge(None, None), None);
    assert_eq!(merge(lone(4, 4), None), lone(4, 4));
    assert_eq!(merge(None, lone(4, 4)), lone(4, 4));
}

#[test]
fn treap_free_insert_and_remove() {
    let mut t: Treap = None;
    t = insert(3, t);
    t = insert(1, t);
    t = insert(2, t);
    assert_eq!(sorted(keys_of(&t)), vec![1, 2, 3]);
    t = remove(2, t);
    assert_eq!(sorted(keys_of(&t)), vec![1, 3]);
    t = remove(7, t);
    assert_eq!(sorted(keys_of(&t)), vec![1, 3]);
    t = remove(1, t);
    t = remove(3, t);
    assert_eq!(t, None);
}

#[test]
fn treap_new_node_holds_its_key() {
    let node = Node::new(17);
    let text = format!("{:?}", node);
    assert!(text.starts_with("Node { value: 17, priority: "));
    assert!(text.ends_with(", left: None, right: None }"));
    assert_eq!(node.clone(), node);
}

#[test]
fn treap_clone_is_equal_and_separate() {
    let mut tree = TreapSet::default();
    tree.insert(4);
    tree.insert(2);
    let mut copy = tree.clone();
    assert_eq!(copy, tree);
    copy.insert(9);
    assert_eq!(tree.iter().collect(), vec![2, 4]);
    assert_eq!(copy.iter().collect(), vec![2, 4, 9]);
}

/// Reads the printed form of a treap off the front of `text`, holds every
/// node to the heap rule, and gives the priority of the root, if there is
/// one, together with the keys met.
fn audit(text: &mut &str, keys: &mut Vec<i64>) -> Option<usize> {
    if let Some(rest) = text.strip_prefix("None") {
        *text = rest;
        return None;
    }
    *text = text.strip_prefix("Some(Node { value: ").unwrap();
    let end = text.find(", priority: ").unwrap();
    let value: i64 = text[..end].parse().unwrap();
    *text = &text[end + 12..];
    let end = text.find(", left: ").unwrap();
    let priority: usize = text[..end].parse().unwrap();
    *text = &text[end + 8..];
    let left = audit(text, keys);
    keys.push(value);
    *text = text.strip_prefix(", right: ").unwrap();
    let right = audit(text, keys);
    *text = text.strip_prefix(" })").unwrap();
    for child in [left, right].into_iter().flatten() {
        assert!(child <= priority, "node {value} has a child of higher priority");
    }
    Some(priority)
}

fn audited(tree: &TreapSet) -> Vec<i64> {
    let printed = format!("{:?}", tree);
    let mut text = printed.strip_prefix("TreapSet { root: ").unwrap();
    let mut keys = Vec::new();
    audit(&mut text, &mut keys);
    assert_eq!(text, " }");
    assert!(keys.windows(2).all(|pair| pair[0] <= pair[1]));
    assert_eq!(keys, tree.iter().collect());
    keys
}

#[test]
fn treap_no_child_outranks_its_parent() {
    let mut tree = TreapSet::default();
    let mut expect: Vec<i64> = Vec::new();
    let mut key: i64 = 1;
    for round in 0..300usize {
        key = (key * 7919 + 13) % 257;
        if round % 3 == 0 {
            tree.insert_with_priority(key, round % 7);
        } else {
            tree.insert(key);
        }
        expect.push(key);
        expect.sort();
        assert_eq!(audited(&tree), expect);
    }
    for _ in 0..400 {
        key = (key * 7919 + 13) % 257;
        assert_eq!(tree.remove(key), Some(key));
        if let Some(at) = expect.iter().position(|x| *x == key) {
            expect.remove(at);
        }
        assert_eq!(audited(&tree), expect);
    }
}

/// The keys of a printed treap, each with the priority of its node, sorted.
fn ranks_of(printed: &str) -> Vec<(i64, usize)> {
    let mut pairs = Vec::new();
    let mut rest = printed;
    while let Some(at) = rest.find("value: ") {
        rest = &rest[at + 7..];
        let end = rest.find(", priority: ").unwrap();
        let value: i64 = rest[..end].parse().unwrap();
        rest = &rest[end + 12..];
        let end = rest.find(',').unwrap();
        pairs.push((value, rest[..end].parse().unwrap()));
    }
    pairs.sort();
    pairs
}

#[test]
fn treap_nodes_keep_their_priorities() {
    let mut t: Treap = None;
    let mut expect: Vec<(i64, usize)> = Vec::new();
    for (key, priority) in [(5, 50), (2, 70), (8, 10), (5, 5), (9, 90), (1, 1), (7, 70)] {
        t = insert_with_priority(key, priority, t);
        expect.push((key, priority));
        expect.sort();
        assert_eq!(ranks_of(&format!("{:?}", t)), expect);
    }
    let (low, high) = split(t, 5);
    assert_eq!(ranks_of(&format!("{:?}", low)), vec![(1, 1), (2, 70), (5, 5), (5, 50)]);
    assert_eq!(ranks_of(&format!("{:?}", high)), vec![(7, 70), (8, 10), (9, 90)]);
    let mut t = merge(low, high);
    assert_eq!(ranks_of(&format!("{:?}", t)), expect);
    t = remove(3, t);
    assert_eq!(ranks_of(&format!("{:?}", t)), expect);
    t = remove(2, t);
    expect.retain(|pair| pair.0 != 2);
    assert_eq!(ranks_of(&format!("{:?}", t)), expect);
    t = remove(5, t);
    let left = ranks_of(&format!("{:?}", t));
    assert_eq!(left.len(), expect.len() - 1);
    assert!(left.iter().all(|pair| expect.contains(pair)));
    assert_eq!(left.iter().filter(|pair| pair.0 == 5).count(), 1);
}

#[test]
fn treap_set_gives_the_new_node_the_priority_asked_for() {
    let mut tree = TreapSet::default();
    tree.insert_with_priority(4, 8);
    tree.insert_with_priority(6, 0);
    tree.insert_with_priority(5, usize::MAX);
    assert_eq!(ranks_of(&format!("{:?}", tree)), vec![(4, 8), (5, usize::MAX), (6, 0)]);
    tree.insert(9);
    let with_drawn = ranks_of(&format!("{:?}", tree));
    assert_eq!(with_drawn[..3].to_vec(), vec![(4, 8), (5, usize::MAX), (6, 0)]);
    assert_eq!(with_drawn[3].0, 9);
    assert_eq!(tree.remove(6), Some(6));
    assert_eq!(ranks_of(&format!("{:?}", tree))[..2].to_vec(), vec![(4, 8), (5, usize::MAX)]);
}

#[test]
fn treap_merge_undoes_split() {
    let mut t: Treap = None;
    for (key, priority) in [(50, 7), (30, 9), (70, 3), (20, 1), (40, 8), (60, 2), (80, 6), (10, 5)] {
        t = insert_with_priority(key, priority, t);
    }
    for pivot in [0, 10, 15, 40, 45, 50, 79, 80, 99] {
        let (low, high) = split(t.clone(), pivot);
        assert_eq!(merge(low, high), t, "pivot {pivot}");
    }
}
