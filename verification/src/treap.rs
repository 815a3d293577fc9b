//! The randomized engine: a search tree by key that is at the same time a
//! max-heap by a priority drawn at random for every node. It is put together
//! from two primitives, [`split`] and [`merge`].
//!
//! Unlike the other engines this one keeps a key that is inserted again: the
//! set then holds it twice, and a removal takes one of the two.

use crate::chance::draw;
use crate::shape::{ascending, non_descending, Shape};
use crate::Tree;
use vstd::multiset::Multiset;
use vstd::prelude::*;

verus! {

pub type Treap = Option<Box<Node>>;

#[derive(Debug, PartialEq)]
pub struct Node {
    value: i64,
    priority: usize,
    left: Treap,
    right: Treap,
}

/// The outline of a treap.
pub closed spec fn shape_of(t: Treap) -> Shape
    decreases t,
{
    match t {
        None => Shape::Leaf,
        Some(node) => Shape::Fork {
            left: Box::new(shape_of(node.left)),
            value: node.value,
            right: Box::new(shape_of(node.right)),
        },
    }
}

/// The priority of the root; below every priority for the empty treap.
pub closed spec fn top_priority(t: Treap) -> int {
    match t {
        None => -1,
        Some(node) => node.priority as int,
    }
}

/// The key at the root, if there is a root.
pub closed spec fn root_key(t: Treap) -> Option<i64> {
    match t {
        None => None,
        Some(node) => Some(node.value),
    }
}

/// The max-heap property: no node has a child of higher priority.
pub closed spec fn heap_ordered(t: Treap) -> bool
    decreases t,
{
    match t {
        None => true,
        Some(node) => {
            &&& top_priority(node.left) <= node.priority
            &&& top_priority(node.right) <= node.priority
            &&& heap_ordered(node.left)
            &&& heap_ordered(node.right)
        },
    }
}

/// The keys of a treap, each with the priority of its node, as often as such
/// a node occurs.
pub closed spec fn ranks(t: Treap) -> Multiset<(i64, int)>
    decreases t,
{
    match t {
        None => Multiset::empty(),
        Some(node) => ranks(node.left).add(ranks(node.right)).insert(
            (node.value, node.priority as int),
        ),
    }
}

/// `after` is `before` with one more node: `value` with the priority
/// `priority`, which is some `usize`.
pub open spec fn took_in(
    before: Multiset<(i64, int)>,
    value: i64,
    priority: int,
    after: Multiset<(i64, int)>,
) -> bool {
    0 <= priority <= usize::MAX && after == before.insert((value, priority))
}

/// `after` is `before` less one node that it held: `value` with the
/// priority `priority`.
pub open spec fn let_go(
    before: Multiset<(i64, int)>,
    value: i64,
    priority: int,
    after: Multiset<(i64, int)>,
) -> bool {
    before.count((value, priority)) > 0 && after == before.remove((value, priority))
}

/// No node occurs twice, no two nodes have the same key and no two the same
/// priority.
pub open spec fn distinct(bag: Multiset<(i64, int)>) -> bool {
    &&& forall|a: (i64, int)| bag.count(a) <= 1
    &&& forall|a: (i64, int), b: (i64, int)|
        #![trigger bag.count(a), bag.count(b)]
        bag.count(a) > 0 && bag.count(b) > 0 && a != b ==> a.0 != b.0 && a.1 != b.1
}

/// What makes a treap sound: search-tree order by key, with repeated keys
/// allowed, and the max-heap property by priority.
pub open spec fn valid(t: Treap) -> bool {
    shape_of(t).ordered() && heap_ordered(t)
}

/// The keys of a treap as an in-order walk meets them.
pub open spec fn listing(t: Treap) -> Seq<i64> {
    shape_of(t).inorder()
}

/// The larger of two priorities.
pub open spec fn higher(a: int, b: int) -> int {
    if a < b {
        b
    } else {
        a
    }
}

/// How outline and top priority of a treap follow from its root.
proof fn lemma_root(t: Treap)
    ensures
        t is None <==> shape_of(t) is Leaf,
        t is None ==> top_priority(t) == -1 && heap_ordered(t),
        t matches Some(node) ==> shape_of(t) == node.shape() && top_priority(t)
            == node.priority && (heap_ordered(t) <==> node.heap_ordered()),
        top_priority(t) >= -1,
        t is None ==> ranks(t) == Multiset::<(i64, int)>::empty(),
        t matches Some(node) ==> ranks(t) == ranks(node.left).add(ranks(node.right)).insert(
            (node.value, node.priority as int),
        ),
{
}

/// The empty treap is sound and holds nothing.
pub proof fn lemma_empty()
    ensures
        valid(None),
        listing(None) == Seq::<i64>::empty(),
        ranks(None) == Multiset::<(i64, int)>::empty(),
        shape_of(None) == Shape::Leaf,
        top_priority(None) == -1,
        root_key(None) is None,
{
    lemma_root(None);
}

/// A node without children is a sound treap by itself, and holds its key
/// with its priority.
pub proof fn lemma_lone(node: Node, value: i64)
    requires
        node.shape() == Shape::single(value),
    ensures
        valid(Some(Box::new(node))),
        listing(Some(Box::new(node))) == seq![value],
        ranks(Some(Box::new(node))) == Multiset::<(i64, int)>::empty().insert(
            (value, node.rank()),
        ),
        shape_of(Some(Box::new(node))) == Shape::single(value),
        top_priority(Some(Box::new(node))) == node.rank(),
        root_key(Some(Box::new(node))) == Some(value),
{
    let t: Treap = Some(Box::new(node));
    lemma_root(t);
    lemma_root(node.left);
    lemma_root(node.right);
    Shape::lemma_single(value);
    assert(ranks(t) =~= Multiset::<(i64, int)>::empty().insert((value, node.rank())));
}

/// Every node of a treap in heap order has its key among the keys and a
/// priority that is some `usize` and no higher than the root's.
pub proof fn lemma_ranks(t: Treap)
    requires
        heap_ordered(t),
    ensures
        forall|pair: (i64, int)| #[trigger]
            ranks(t).count(pair) > 0 ==> shape_of(t).bag().count(pair.0) > 0 && 0 <= pair.1
                <= top_priority(t),
        t is None <==> ranks(t).len() == 0,
    decreases t,
{
    lemma_root(t);
    match t {
        None => {},
        Some(node) => {
            lemma_root(node.left);
            lemma_root(node.right);
            lemma_ranks(node.left);
            lemma_ranks(node.right);
            vstd::multiset::lemma_insert_len(
                ranks(node.left).add(ranks(node.right)),
                (node.value, node.priority as int),
            );
            assert forall|pair: (i64, int)| #[trigger] ranks(t).count(pair) > 0 implies shape_of(
                t,
            ).bag().count(pair.0) > 0 && 0 <= pair.1 <= top_priority(t) by {
                if ranks(node.left).count(pair) > 0 {
                } else if ranks(node.right).count(pair) > 0 {
                } else {
                    assert(pair == (node.value, node.priority as int));
                }
            }
        },
    }
}

/// A sound treap in which no two nodes share a key or a priority is settled
/// by its nodes: two such treaps with the same keys and priorities are the
/// same treap. So priorities that are kept settle the shape, and merging the
/// two parts of a split gives the treap back.
pub proof fn lemma_unique(a: Treap, b: Treap)
    requires
        valid(a),
        valid(b),
        ranks(a) == ranks(b),
        distinct(ranks(a)),
    ensures
        a == b,
    decreases a,
{
    lemma_root(a);
    lemma_root(b);
    lemma_ranks(a);
    lemma_ranks(b);
    match a {
        None => {
            assert(ranks(b).len() == 0);
        },
        Some(na) => {
            assert(ranks(a).len() > 0);
            let nb = b.unwrap();
            let top_a = (na.value, na.priority as int);
            let top_b = (nb.value, nb.priority as int);
            let whole = ranks(a);
            assert(whole.count(top_a) > 0);
            assert(whole.count(top_b) > 0);
            assert(top_a.1 <= top_priority(b));
            assert(top_b.1 <= top_priority(a));
            assert(top_a == top_b);
            lemma_root(na.left);
            lemma_root(na.right);
            lemma_root(nb.left);
            lemma_root(nb.right);
            lemma_ranks(na.left);
            lemma_ranks(na.right);
            lemma_ranks(nb.left);
            lemma_ranks(nb.right);
            assert forall|x: (i64, int)| ranks(na.left).count(x) == ranks(nb.left).count(x) by {
                lemma_side(na, nb, x);
            }
            assert forall|x: (i64, int)| ranks(na.right).count(x) == ranks(nb.right).count(x) by {
                lemma_side(na, nb, x);
            }
            assert(ranks(na.left) =~= ranks(nb.left));
            assert(ranks(na.right) =~= ranks(nb.right));
            assert(distinct(ranks(na.left))) by {
                assert forall|x: (i64, int)| ranks(na.left).count(x) <= 1 by {
                    assert(whole.count(x) <= 1);
                }
                assert forall|x: (i64, int), y: (i64, int)|
                    #![trigger ranks(na.left).count(x), ranks(na.left).count(y)]
                    ranks(na.left).count(x) > 0 && ranks(na.left).count(y) > 0 && x
                        != y implies x.0 != y.0 && x.1 != y.1 by {
                    assert(whole.count(x) > 0 && whole.count(y) > 0);
                }
            }
            assert(distinct(ranks(na.right))) by {
                assert forall|x: (i64, int)| ranks(na.right).count(x) <= 1 by {
                    assert(whole.count(x) <= 1);
                }
                assert forall|x: (i64, int), y: (i64, int)|
                    #![trigger ranks(na.right).count(x), ranks(na.right).count(y)]
                    ranks(na.right).count(x) > 0 && ranks(na.right).count(y) > 0 && x
                        != y implies x.0 != y.0 && x.1 != y.1 by {
                    assert(whole.count(x) > 0 && whole.count(y) > 0);
                }
            }
            lemma_unique(na.left, nb.left);
            lemma_unique(na.right, nb.right);
            assert(*na == *nb);
        },
    }
}

/// In two sound treaps with the same root and the same distinct nodes, a
/// node stands on the same side of the root in both.
proof fn lemma_side(na: Box<Node>, nb: Box<Node>, x: (i64, int))
    requires
        valid(Some(na)),
        valid(Some(nb)),
        ranks(Some(na)) == ranks(Some(nb)),
        distinct(ranks(Some(na))),
        na.value == nb.value,
        na.priority == nb.priority,
    ensures
        ranks(na.left).count(x) == ranks(nb.left).count(x),
        ranks(na.right).count(x) == ranks(nb.right).count(x),
{
    let a: Treap = Some(na);
    let b: Treap = Some(nb);
    let whole = ranks(a);
    let top = (na.value, na.priority as int);
    lemma_root(a);
    lemma_root(b);
    lemma_root(na.left);
    lemma_root(na.right);
    lemma_root(nb.left);
    lemma_root(nb.right);
    lemma_ranks(na.left);
    lemma_ranks(na.right);
    lemma_ranks(nb.left);
    lemma_ranks(nb.right);
    assert(whole.count(top) == 1);
    assert(whole.count(x) <= 1);
    assert(whole.count(x) == ranks(na.left).count(x) + ranks(na.right).count(x) + if x == top {
        1nat
    } else {
        0nat
    });
    assert(whole.count(x) == ranks(nb.left).count(x) + ranks(nb.right).count(x) + if x == top {
        1nat
    } else {
        0nat
    });
    if x != top && whole.count(x) > 0 {
        assert(x.0 != top.0);
        if ranks(na.left).count(x) > 0 {
            assert(shape_of(na.left).bag().count(x.0) > 0);
            assert(x.0 < na.value);
            if ranks(nb.right).count(x) > 0 {
                assert(shape_of(nb.right).bag().count(x.0) > 0);
            }
        } else {
            assert(ranks(na.right).count(x) > 0);
            assert(shape_of(na.right).bag().count(x.0) > 0);
            assert(x.0 > na.value);
            if ranks(nb.left).count(x) > 0 {
                assert(shape_of(nb.left).bag().count(x.0) > 0);
            }
        }
    }
}

impl Node {
    /// The outline of the treap below this node, the node included.
    pub closed spec fn shape(self) -> Shape {
        Shape::Fork {
            left: Box::new(shape_of(self.left)),
            value: self.value,
            right: Box::new(shape_of(self.right)),
        }
    }

    /// The priority of this node.
    pub closed spec fn rank(self) -> int {
        self.priority as int
    }

    /// The max-heap property at this node and below it.
    pub closed spec fn heap_ordered(self) -> bool {
        &&& top_priority(self.left) <= self.priority
        &&& top_priority(self.right) <= self.priority
        &&& heap_ordered(self.left)
        &&& heap_ordered(self.right)
    }

    /// A node without children that holds `value`, with a priority drawn from
    /// the generator of the current thread.
    pub fn new(value: i64) -> (node: Self)
        ensures
            node.shape() == Shape::single(value),
            node.heap_ordered(),
    {
        let mut rng = rand::thread_rng();
        Self::with_priority(value, draw(&mut rng))
    }

    /// A node without children that holds `value` with the given priority.
    pub fn with_priority(value: i64, priority: usize) -> (node: Self)
        ensures
            node.shape() == Shape::single(value),
            node.rank() == priority,
            node.heap_ordered(),
    {
        proof {
            lemma_root(None);
        }
        Self { value, priority, left: None, right: None }
    }
}

impl Clone for Node {
    fn clone(&self) -> (copy: Self)
        ensures
            copy == *self,
        decreases self,
    {
        Node {
            value: self.value,
            priority: self.priority,
            left: clone_subtree(&self.left),
            right: clone_subtree(&self.right),
        }
    }
}

fn clone_subtree(tree: &Treap) -> (copy: Treap)
    ensures
        copy == *tree,
    decreases tree,
{
    match tree {
        None => None,
        Some(node) => Some(Box::new((**node).clone())),
    }
}

/// Joins two treaps of which the first holds no key greater than a key of
/// the second. The root of higher priority becomes the root of the result;
/// the other treap is merged into the child of that root which faces it.
pub fn merge(t1: Treap, t2: Treap) -> (merged: Treap)
    requires
        valid(t1),
        valid(t2),
        forall|a: i64, b: i64|
            shape_of(t1).bag().count(a) > 0 && shape_of(t2).bag().count(b) > 0 ==> a <= b,
    ensures
        valid(merged),
        listing(merged) == listing(t1) + listing(t2),
        shape_of(merged).bag() == shape_of(t1).bag().add(shape_of(t2).bag()),
        ranks(merged) == ranks(t1).add(ranks(t2)),
        top_priority(merged) == higher(top_priority(t1), top_priority(t2)),
        t1 is None ==> merged == t2,
        t2 is None ==> merged == t1,
        t1 is Some && t2 is Some ==> root_key(merged) == if top_priority(t1) > top_priority(t2) {
            root_key(t1)
        } else {
            root_key(t2)
        },
    decreases t1, t2,
{
    proof {
        lemma_root(t1);
        lemma_root(t2);
    }
    match t1 {
        None => {
            assert(listing(t1) + listing(t2) =~= listing(t2));
            assert(shape_of(t1).bag().add(shape_of(t2).bag()) =~= shape_of(t2).bag());
            assert(ranks(t1).add(ranks(t2)) =~= ranks(t2));
            t2
        },
        Some(mut left) => match t2 {
            None => {
                assert(listing(t1) + listing(t2) =~= listing(t1));
                assert(shape_of(t1).bag().add(shape_of(t2).bag()) =~= shape_of(t1).bag());
                assert(ranks(t1).add(ranks(t2)) =~= ranks(t1));
                Some(left)
            },
            Some(mut right) => {
                proof {
                    lemma_root(left.left);
                    lemma_root(left.right);
                    lemma_root(right.left);
                    lemma_root(right.right);
                    assert(shape_of(t1).bag().count(left.value) > 0);
                    assert(shape_of(t2).bag().count(right.value) > 0);
                }
                if left.priority > right.priority {
                    let inner = left.right.take();
                    assert forall|a: i64, b: i64|
                        shape_of(inner).bag().count(a) > 0 && shape_of(t2).bag().count(b)
                            > 0 implies a <= b by {
                        assert(shape_of(t1).bag().count(a) > 0);
                    }
                    let joined = merge(inner, Some(right));
                    proof {
                        lemma_root(joined);
                        assert forall|x: i64| shape_of(joined).bag().count(x) > 0 implies left.value
                            <= x by {
                            if shape_of(inner).bag().count(x) > 0 {
                            } else {
                                assert(shape_of(t2).bag().count(x) > 0);
                            }
                        }
                    }
                    left.right = joined;
                    proof {
                        lemma_root(Some(left));
                        assert(listing(Some(left)) =~= listing(t1) + listing(t2));
                        assert(shape_of(Some(left)).bag() =~= shape_of(t1).bag().add(
                            shape_of(t2).bag(),
                        ));
                        assert(ranks(Some(left)) =~= ranks(t1).add(ranks(t2)));
                    }
                    Some(left)
                } else {
                    let inner = right.left.take();
                    assert forall|a: i64, b: i64|
                        shape_of(t1).bag().count(a) > 0 && shape_of(inner).bag().count(b)
                            > 0 implies a <= b by {
                        assert(shape_of(t2).bag().count(b) > 0);
                    }
                    let joined = merge(Some(left), inner);
                    proof {
                        lemma_root(joined);
                        assert forall|x: i64| shape_of(joined).bag().count(x) > 0 implies x
                            <= right.value by {
                            if shape_of(inner).bag().count(x) > 0 {
                            } else {
                                assert(shape_of(t1).bag().count(x) > 0);
                            }
                        }
                    }
                    right.left = joined;
                    proof {
                        lemma_root(Some(right));
                        assert(listing(Some(right)) =~= listing(t1) + listing(t2));
                        assert(shape_of(Some(right)).bag() =~= shape_of(t1).bag().add(
                            shape_of(t2).bag(),
                        ));
                        assert(ranks(Some(right)) =~= ranks(t1).add(ranks(t2)));
                    }
                    Some(right)
                }
            },
        },
    }
}

/// Cuts a treap in two along the search path for `value`: the first part
/// holds the keys up to `value`, the second the keys above it.
pub fn split(t: Treap, value: i64) -> (parts: (Treap, Treap))
    requires
        valid(t),
    ensures
        valid(parts.0),
        valid(parts.1),
        listing(parts.0) + listing(parts.1) == listing(t),
        shape_of(parts.0).bag().add(shape_of(parts.1).bag()) == shape_of(t).bag(),
        ranks(parts.0).add(ranks(parts.1)) == ranks(t),
        forall|x: i64| shape_of(parts.0).bag().count(x) > 0 ==> x <= value,
        forall|x: i64| shape_of(parts.1).bag().count(x) > 0 ==> value < x,
        top_priority(parts.0) <= top_priority(t),
        top_priority(parts.1) <= top_priority(t),
    decreases t,
{
    proof {
        lemma_root(t);
    }
    match t {
        Some(mut root) => {
            proof {
                lemma_root(root.left);
                lemma_root(root.right);
            }
            if root.value <= value {
                let (left, right) = split(root.right.take(), value);
                proof {
                    lemma_root(left);
                    assert forall|x: i64| shape_of(left).bag().count(x) > 0 implies root.value
                        <= x by {
                        assert(shape_of(left).bag().add(shape_of(right).bag()).count(x) > 0);
                    }
                }
                root.right = left;
                proof {
                    lemma_root(Some(root));
                    assert(listing(Some(root)) + listing(right) =~= listing(t));
                    assert(shape_of(Some(root)).bag().add(shape_of(right).bag()) =~= shape_of(
                        t,
                    ).bag());
                    assert(ranks(Some(root)).add(ranks(right)) =~= ranks(t));
                }
                (Some(root), right)
            } else {
                let (left, right) = split(root.left.take(), value);
                proof {
                    lemma_root(right);
                    assert forall|x: i64| shape_of(right).bag().count(x) > 0 implies x
                        <= root.value by {
                        assert(shape_of(left).bag().add(shape_of(right).bag()).count(x) > 0);
                    }
                }
                root.left = right;
                proof {
                    lemma_root(Some(root));
                    assert(listing(left) + listing(Some(root)) =~= listing(t));
                    assert(shape_of(left).bag().add(shape_of(Some(root)).bag()) =~= shape_of(
                        t,
                    ).bag());
                    assert(ranks(left).add(ranks(Some(root))) =~= ranks(t));
                }
                (left, Some(root))
            }
        },
        None => {
            proof {
                lemma_root(None);
                assert(listing(None) + listing(None) =~= listing(t));
                assert(shape_of(None).bag().add(shape_of(None).bag()) =~= shape_of(t).bag());
                assert(ranks(None).add(ranks(None)) =~= ranks(t));
            }
            (None, None)
        },
    }
}

/// Puts a childless node into a treap: the treap is split at the node's key
/// and the node is merged in between the two parts.
fn attach(node: Box<Node>, t: Treap) -> (grown: Treap)
    requires
        valid(t),
        node.left is None,
        node.right is None,
    ensures
        valid(grown),
        shape_of(grown).bag() == shape_of(t).bag().insert(node.value),
        ranks(grown) == ranks(t).insert((node.value, node.priority as int)),
{
    let ghost key = node.value;
    let ghost lone = shape_of(Some(node));
    proof {
        lemma_root(None);
        lemma_root(Some(node));
        lemma_root(node.left);
        lemma_root(node.right);
        assert(lone == Shape::single(key));
        Shape::lemma_single(key);
    }
    let (left, right) = split(t, node.value);
    let lower = merge(left, Some(node));
    assert forall|a: i64, b: i64|
        shape_of(lower).bag().count(a) > 0 && shape_of(right).bag().count(b) > 0 implies a
            <= b by {
        if shape_of(left).bag().count(a) > 0 {
        } else {
            assert(lone.bag().count(a) > 0);
        }
    }
    let grown = merge(lower, right);
    assert(shape_of(grown).bag() =~= shape_of(t).bag().insert(key));
    assert(ranks(grown) =~= ranks(t).insert((key, node.priority as int)));
    grown
}

/// Adds `value` to a treap in a node of random priority. A key that is
/// there already is added once more.
pub fn insert(value: i64, t: Treap) -> (grown: Treap)
    requires
        valid(t),
    ensures
        valid(grown),
        listing(grown).to_multiset() == listing(t).to_multiset().insert(value),
        exists|priority: int| #[trigger] took_in(ranks(t), value, priority, ranks(grown)),
{
    proof {
        shape_of(t).lemma_inorder_bag();
    }
    let node = Box::new(Node::new(value));
    let ghost priority = node.priority as int;
    let grown = attach(node, t);
    proof {
        shape_of(grown).lemma_inorder_bag();
        assert(took_in(ranks(t), value, priority, ranks(grown)));
    }
    grown
}

/// Adds `value` to a treap in a node of the given priority. A key that is
/// there already is added once more.
pub fn insert_with_priority(value: i64, priority: usize, t: Treap) -> (grown: Treap)
    requires
        valid(t),
    ensures
        valid(grown),
        listing(grown).to_multiset() == listing(t).to_multiset().insert(value),
        ranks(grown) == ranks(t).insert((value, priority as int)),
{
    proof {
        shape_of(t).lemma_inorder_bag();
    }
    let node = Box::new(Node::with_priority(value, priority));
    let grown = attach(node, t);
    proof {
        shape_of(grown).lemma_inorder_bag();
    }
    grown
}

/// Takes one node with `value` out of a treap, the first that the search
/// path meets; its two subtrees are merged in its place. A treap without
/// `value` stays as it is.
pub fn remove(value: i64, t: Treap) -> (rest: Treap)
    requires
        valid(t),
    ensures
        valid(rest),
        listing(rest).to_multiset() == listing(t).to_multiset().remove(value),
        shape_of(rest).bag() == shape_of(t).bag().remove(value),
        shape_of(rest).size() + if shape_of(t).has(value) { 1int } else { 0int } == shape_of(
            t,
        ).size(),
        !shape_of(t).has(value) ==> shape_of(rest) == shape_of(t),
        shape_of(t).has(value) ==> exists|priority: int| #[trigger]
            let_go(ranks(t), value, priority, ranks(rest)),
        !shape_of(t).has(value) ==> ranks(rest) == ranks(t),
        top_priority(rest) <= top_priority(t),
    decreases t,
{
    proof {
        lemma_root(t);
        shape_of(t).lemma_inorder_bag();
    }
    match t {
        None => {
            proof {
                assert(shape_of(t).bag().remove(value) =~= shape_of(t).bag());
            }
            None
        },
        Some(mut root) => {
            proof {
                lemma_root(root.left);
                lemma_root(root.right);
            }
            let ghost whole = ranks(t);
            let ghost top = (root.value, root.priority as int);
            let ghost side: Treap = if root.value < value {
                root.right
            } else {
                root.left
            };
            let ghost other: Treap = if root.value < value {
                root.left
            } else {
                root.right
            };
            let ghost rest_ranks: Multiset<(i64, int)>;
            if root.value < value {
                assert(!shape_of(root.left).has(value));
                let rest = remove(value, root.right.take());
                proof {
                    lemma_root(rest);
                    rest_ranks = ranks(rest);
                }
                root.right = rest;
            } else if value < root.value {
                assert(!shape_of(root.right).has(value));
                let rest = remove(value, root.left.take());
                proof {
                    lemma_root(rest);
                    rest_ranks = ranks(rest);
                }
                root.left = rest;
            } else {
                let left = root.left.take();
                let right = root.right.take();
                let merged = merge(left, right);
                proof {
                    assert(shape_of(merged).bag() =~= shape_of(t).bag().remove(value));
                    assert(ranks(merged) =~= whole.remove(top));
                    assert(let_go(whole, value, top.1, ranks(merged)));
                    shape_of(merged).lemma_inorder_bag();
                    shape_of(left).lemma_inorder_bag();
                    shape_of(right).lemma_inorder_bag();
                }
                return merged;
            }
            proof {
                lemma_root(Some(root));
                assert(shape_of(Some(root)).bag() =~= shape_of(t).bag().remove(value));
                shape_of(Some(root)).lemma_inorder_bag();
                assert(whole =~= ranks(other).add(ranks(side)).insert(top));
                assert(ranks(Some(root)) =~= ranks(other).add(rest_ranks).insert(top));
                assert(shape_of(t).has(value) == shape_of(side).has(value));
                if shape_of(side).has(value) {
                    let priority = choose|priority: int| #[trigger]
                        let_go(ranks(side), value, priority, rest_ranks);
                    assert(ranks(Some(root)) =~= whole.remove((value, priority)));
                    assert(let_go(whole, value, priority, ranks(Some(root))));
                } else {
                    assert(ranks(Some(root)) =~= whole);
                }
            }
            Some(root)
        },
    }
}

/// A collection of `i64` in a treap. A key inserted twice is held twice.
#[derive(Debug, PartialEq)]
pub struct TreapSet {
    root: Treap,
}

impl View for TreapSet {
    type V = Seq<i64>;

    /// The keys as an in-order walk meets them: never descending, and
    /// ascending as long as no key was inserted twice.
    open spec fn view(&self) -> Seq<i64> {
        self.shape().inorder()
    }
}

impl TreapSet {
    /// The outline of the treap.
    pub closed spec fn shape(self) -> Shape {
        shape_of(self.root)
    }

    /// No node has a child of higher priority.
    pub closed spec fn heap_ordered(self) -> bool {
        heap_ordered(self.root)
    }

    /// The keys, each with the priority of its node, as often as such a node
    /// occurs.
    pub closed spec fn ranks(self) -> Multiset<(i64, int)> {
        ranks(self.root)
    }

    /// What holds of every treap set: search-tree order by key and the
    /// max-heap property by priority.
    #[verifier::type_invariant]
    pub open spec fn wf(self) -> bool {
        self.shape().ordered() && self.heap_ordered()
    }

    /// The listing of every sound treap set has no descent, and it ascends
    /// exactly if no key is held twice.
    pub proof fn lemma_wf(self)
        requires
            self.wf(),
        ensures
            self.heap_ordered(),
            non_descending(self@),
            ascending(self@) <==> self@.no_duplicates(),
    {
        self.shape().lemma_ordered_non_descending();
        let s = self@;
        if s.no_duplicates() {
            assert forall|i: int, j: int| 0 <= i < j < s.len() implies s[i] < s[j] by {
                assert(s[i] <= s[j]);
            }
        }
    }

    /// Adds `value` in a node of the given priority and answers `true`. A key
    /// that is there already is added once more.
    pub fn insert_with_priority(&mut self, value: i64, priority: usize) -> (added: bool)
        ensures
            added,
            final(self)@.to_multiset() == old(self)@.to_multiset().insert(value),
            final(self)@.len() == old(self)@.len() + 1,
            forall|x: i64|
                #![trigger final(self)@.contains(x)]
                final(self)@.contains(x) <==> x == value || old(self)@.contains(x),
            non_descending(final(self)@),
            ascending(old(self)@) && !old(self)@.contains(value) ==> ascending(final(self)@),
            final(self).heap_ordered(),
            final(self).ranks() == old(self).ranks().insert((value, priority as int)),
    {
        proof {
            use_type_invariant(&*self);
        }
        let mut root: Treap = None;
        std::mem::swap(&mut self.root, &mut root);
        let ghost before = shape_of(root);
        root = insert_with_priority(value, priority, root);
        proof {
            lemma_grown(before, shape_of(root), value);
        }
        self.root = root;
        true
    }

    /// A walk over the keys in in-order, from the smallest.
    pub fn iter(&self) -> (walk: TreapIter<'_>)
        ensures
            walk.remaining() == self@,
            non_descending(walk.remaining()),
    {
        proof {
            use_type_invariant(self);
            self.shape().lemma_ordered_non_descending();
        }
        TreapIter { prev_nodes: Vec::new(), current: &self.root }
    }
}

/// What follows for the listing when a treap has gained one key.
proof fn lemma_grown(before: Shape, after: Shape, value: i64)
    requires
        before.ordered(),
        after.ordered(),
        after.inorder().to_multiset() == before.inorder().to_multiset().insert(value),
    ensures
        after.inorder().len() == before.inorder().len() + 1,
        forall|x: i64|
            #![trigger after.inorder().contains(x)]
            after.inorder().contains(x) <==> x == value || before.inorder().contains(x),
        non_descending(after.inorder()),
        ascending(before.inorder()) && !before.inorder().contains(value) ==> ascending(
            after.inorder(),
        ),
{
    before.lemma_inorder_bag();
    after.lemma_inorder_bag();
    before.lemma_ordered_strict();
    after.lemma_ordered_strict();
    after.lemma_ordered_non_descending();
    assert(after.bag() =~= before.bag().insert(value));
    if ascending(before.inorder()) && !before.inorder().contains(value) {
        assert forall|x: i64| after.bag().count(x) <= 1 by {
            assert(before.bag().count(x) <= 1);
        }
    }
}

/// What follows for the listing when a treap has lost one copy of a key.
proof fn lemma_shrunk(before: Shape, after: Shape, value: i64)
    requires
        before.ordered(),
        after.ordered(),
        after.bag() == before.bag().remove(value),
        after.size() + if before.has(value) { 1int } else { 0int } == before.size(),
    ensures
        after.inorder().len() == before.inorder().len() - if before.inorder().contains(value) {
            1int
        } else {
            0int
        },
        non_descending(after.inorder()),
        forall|x: i64|
            #![trigger after.inorder().contains(x)]
            x != value ==> (after.inorder().contains(x) <==> before.inorder().contains(x)),
        ascending(before.inorder()) ==> ascending(after.inorder()) && !after.inorder().contains(
            value,
        ),
{
    before.lemma_inorder_bag();
    after.lemma_inorder_bag();
    before.lemma_ordered_strict();
    after.lemma_ordered_strict();
    after.lemma_ordered_non_descending();
    if ascending(before.inorder()) {
        assert forall|x: i64| after.bag().count(x) <= 1 by {
            assert(before.bag().count(x) <= 1);
        }
        assert(before.bag().count(value) <= 1);
        assert(after.bag().count(value) == 0);
    }
}

impl Default for TreapSet {
    fn default() -> (set: Self)
        ensures
            set@ == Seq::<i64>::empty(),
            set.shape() == Shape::Leaf,
            set.ranks() == Multiset::<(i64, int)>::empty(),
    {
        proof {
            lemma_root(None);
        }
        TreapSet { root: None }
    }
}

impl Clone for TreapSet {
    fn clone(&self) -> (copy: Self)
        ensures
            copy == *self,
    {
        proof {
            use_type_invariant(self);
        }
        TreapSet { root: clone_subtree(&self.root) }
    }
}

impl Tree for TreapSet {
    open spec fn listing(&self) -> Seq<i64> {
        self@
    }

    /// Every key is added, also one that is there already.
    open spec fn accepts(&self, value: i64) -> bool {
        true
    }

    /// A removal reports the key it was asked for, also where none was there.
    open spec fn yields(&self, value: i64) -> bool {
        true
    }

    /// Adds `value` in a node of random priority and answers `true`. A key
    /// that is there already is added once more.
    fn insert(&mut self, value: i64) -> (added: bool)
        ensures
            final(self)@.len() == old(self)@.len() + 1,
            forall|x: i64|
                #![trigger final(self)@.contains(x)]
                final(self)@.contains(x) <==> x == value || old(self)@.contains(x),
            ascending(old(self)@) && !old(self)@.contains(value) ==> ascending(final(self)@),
            final(self).heap_ordered(),
            exists|priority: int| #[trigger]
                took_in(old(self).ranks(), value, priority, final(self).ranks()),
    {
        proof {
            use_type_invariant(&*self);
        }
        let mut root: Treap = None;
        std::mem::swap(&mut self.root, &mut root);
        let ghost before = shape_of(root);
        let ghost before_ranks = ranks(root);
        root = insert(value, root);
        let ghost priority = choose|priority: int| #[trigger]
            took_in(before_ranks, value, priority, ranks(root));
        proof {
            lemma_grown(before, shape_of(root), value);
        }
        self.root = root;
        assert(took_in(old(self).ranks(), value, priority, self.ranks()));
        true
    }

    /// Takes one copy of `value` out if there is one, and answers
    /// `Some(value)` whether there was one or not.
    fn remove(&mut self, value: i64) -> (taken: Option<i64>)
        ensures
            final(self)@.len() == old(self)@.len() - if old(self)@.contains(value) {
                1int
            } else {
                0int
            },
            !old(self)@.contains(value) ==> final(self)@ == old(self)@,
            forall|x: i64|
                #![trigger final(self)@.contains(x)]
                x != value ==> (final(self)@.contains(x) <==> old(self)@.contains(x)),
            ascending(old(self)@) ==> ascending(final(self)@) && !final(self)@.contains(value),
            final(self).heap_ordered(),
            old(self)@.contains(value) ==> exists|priority: int| #[trigger]
                let_go(old(self).ranks(), value, priority, final(self).ranks()),
            !old(self)@.contains(value) ==> final(self).ranks() == old(self).ranks(),
    {
        proof {
            use_type_invariant(&*self);
            self.shape().lemma_inorder_bag();
        }
        let mut root: Treap = None;
        std::mem::swap(&mut self.root, &mut root);
        let ghost before = shape_of(root);
        let ghost before_ranks = ranks(root);
        root = remove(value, root);
        let ghost priority = choose|priority: int| #[trigger]
            let_go(before_ranks, value, priority, ranks(root));
        proof {
            lemma_shrunk(before, shape_of(root), value);
        }
        self.root = root;
        assert(before.has(value) ==> let_go(old(self).ranks(), value, priority, self.ranks()));
        Some(value)
    }

    /// Whether `value` is one of the keys.
    fn search(&self, value: i64) -> (found: bool) {
        proof {
            use_type_invariant(self);
            self.shape().lemma_inorder_bag();
        }
        let mut current = &self.root;
        loop
            invariant
                shape_of(*current).ordered(),
                shape_of(self.root).has(value) == shape_of(*current).has(value),
                self@.contains(value) == shape_of(self.root).has(value),
            decreases *current,
        {
            match current {
                None => {
                    return false;
                },
                Some(node) => {
                    if node.value < value {
                        assert(!shape_of(node.left).has(value));
                        current = &node.right;
                    } else if value < node.value {
                        assert(!shape_of(node.right).has(value));
                        current = &node.left;
                    } else {
                        return true;
                    }
                },
            }
        }
    }
}

/// A walk over a treap's keys in in-order, with the ancestors still to be
/// visited kept on a stack.
#[derive(Debug)]
pub struct TreapIter<'a> {
    prev_nodes: Vec<&'a Node>,
    current: &'a Treap,
}

/// What the nodes on the stack still have to give, from the top of the stack
/// down: each its own key, then the keys to its right.
pub closed spec fn pending(stack: Seq<&Node>) -> Seq<i64>
    decreases stack.len(),
{
    if stack.len() == 0 {
        Seq::empty()
    } else {
        (seq![stack.last().value] + shape_of(stack.last().right).inorder()) + pending(
            stack.drop_last(),
        )
    }
}

impl<'a> TreapIter<'a> {
    /// The keys that the walk has yet to give, in the order in which it gives them.
    pub closed spec fn remaining(self) -> Seq<i64> {
        shape_of(*self.current).inorder() + pending(self.prev_nodes@)
    }

    /// The next key of the walk, or `None` when all have been given.
    pub fn next(&mut self) -> (item: Option<&'a i64>)
        ensures
            old(self).remaining().len() == 0 ==> item is None && final(self).remaining()
                == old(self).remaining(),
            old(self).remaining().len() > 0 ==> item == Some(&old(self).remaining()[0])
                && final(self).remaining() == old(self).remaining().skip(1),
    {
        loop
            invariant
                self.remaining() == old(self).remaining(),
            decreases *self.current,
        {
            let ghost before = *self;
            let here: &'a Treap = self.current;
            match here {
                None => {
                    match self.prev_nodes.pop() {
                        Some(prev_node) => {
                            self.current = &prev_node.right;
                            proof {
                                let stack = before.prev_nodes@;
                                lemma_root(*before.current);
                                assert(self.prev_nodes@ == stack.drop_last());
                                assert(prev_node == stack.last());
                                assert(before.remaining() =~= pending(stack));
                                let tail = shape_of(prev_node.right).inorder() + pending(
                                    stack.drop_last(),
                                );
                                assert(pending(stack) =~= seq![prev_node.value] + tail);
                                assert((seq![prev_node.value] + tail).skip(1) =~= tail);
                            }
                            assert(self.remaining() =~= before.remaining().skip(1));
                            return Some(&prev_node.value);
                        },
                        None => {
                            return None;
                        },
                    }
                },
                Some(node) => {
                    if node.left.is_some() {
                        self.prev_nodes.push(&**node);
                        self.current = &node.left;
                        assert(self.prev_nodes@.drop_last() == before.prev_nodes@);
                        assert(self.remaining() =~= before.remaining());
                    } else {
                        self.current = &node.right;
                        proof {
                            lemma_root(*before.current);
                            lemma_root(node.left);
                            let tail = shape_of(node.right).inorder() + pending(
                                before.prev_nodes@,
                            );
                            assert(shape_of(node.left).inorder() =~= Seq::<i64>::empty());
                            assert(shape_of(*before.current).inorder() =~= shape_of(
                                node.left,
                            ).inorder().push(node.value) + shape_of(node.right).inorder());
                            assert(before.remaining() =~= seq![node.value] + tail);
                            assert((seq![node.value] + tail).skip(1) =~= tail);
                        }
                        assert(self.remaining() =~= before.remaining().skip(1));
                        return Some(&node.value);
                    }
                },
            }
        }
    }

    /// Runs the walk to its end and gives the keys it met.
    pub fn collect(self) -> (keys: Vec<i64>)
        ensures
            keys@ == self.remaining(),
    {
        let mut walk = self;
        let mut keys: Vec<i64> = Vec::new();
        loop
            invariant
                keys@ + walk.remaining() == self.remaining(),
            decreases walk.remaining().len(),
        {
            match walk.next() {
                Some(key) => {
                    keys.push(*key);
                },
                None => {
                    assert(keys@ + walk.remaining() =~= keys@);
                    return keys;
                },
            }
        }
    }
}

} // verus!
