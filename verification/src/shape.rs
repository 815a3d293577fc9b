//! The mathematical picture of a search tree that the three engines share.
//!
//! A [`Shape`] is a binary tree of keys with nothing else in it. Every engine
//! maps its nodes to a `Shape`; listing, membership, ordering, height and
//! balance are defined once, here, and the engines' contracts speak of them.

use vstd::prelude::*;
use vstd::multiset::Multiset;
use vstd::seq_lib::*;

verus! {

/// The outline of a binary tree of keys.
pub enum Shape {
    Leaf,
    Fork { left: Box<Shape>, value: i64, right: Box<Shape> },
}

/// Every item is smaller than all the items after it.
pub open spec fn ascending(s: Seq<i64>) -> bool {
    forall|i: int, j: int| 0 <= i < j < s.len() ==> s[i] < s[j]
}

/// No item is greater than an item after it.
pub open spec fn non_descending(s: Seq<i64>) -> bool {
    forall|i: int, j: int| 0 <= i < j < s.len() ==> s[i] <= s[j]
}

/// An ascending sequence has no descent.
pub proof fn lemma_ascending_non_descending(s: Seq<i64>)
    requires
        ascending(s),
    ensures
        non_descending(s),
{
}

/// Two listings without a descent that hold the same keys, each as often as
/// the other, are the same listing. So the keys of a search tree, with their
/// multiplicities, settle what a walk over it gives.
pub proof fn lemma_listing_unique(a: Seq<i64>, b: Seq<i64>)
    requires
        non_descending(a),
        non_descending(b),
        a.to_multiset() == b.to_multiset(),
    ensures
        a == b,
    decreases a.len(),
{
    a.to_multiset_ensures();
    b.to_multiset_ensures();
    if a.len() == 0 {
        assert(a =~= b);
    } else {
        assert(a.contains(a[0]));
        assert(b.contains(b[0]));
        assert(b.to_multiset().count(a[0]) > 0);
        assert(a.to_multiset().count(b[0]) > 0);
        let i = choose|i: int| 0 <= i < b.len() && b[i] == a[0];
        let j = choose|j: int| 0 <= j < a.len() && a[j] == b[0];
        assert(b[0] <= b[i]);
        assert(a[0] <= a[j]);
        assert(a[0] == b[0]);
        let rest_a = a.remove(0);
        let rest_b = b.remove(0);
        assert(rest_a.to_multiset() == rest_b.to_multiset());
        assert forall|i: int, j: int| 0 <= i < j < rest_a.len() implies rest_a[i] <= rest_a[j] by {
            assert(rest_a[i] == a[i + 1] && rest_a[j] == a[j + 1]);
        }
        assert forall|i: int, j: int| 0 <= i < j < rest_b.len() implies rest_b[i] <= rest_b[j] by {
            assert(rest_b[i] == b[i + 1] && rest_b[j] == b[j + 1]);
        }
        lemma_listing_unique(rest_a, rest_b);
        assert(a =~= seq![a[0]] + rest_a);
        assert(b =~= seq![b[0]] + rest_b);
    }
}

/// Two ascending listings with the same keys are the same listing. So the
/// keys of an ordered set settle what a walk over it gives.
pub proof fn lemma_ascending_unique(a: Seq<i64>, b: Seq<i64>)
    requires
        ascending(a),
        ascending(b),
        forall|x: i64| a.contains(x) <==> b.contains(x),
    ensures
        a == b,
{
    a.to_multiset_ensures();
    b.to_multiset_ensures();
    assert(a.no_duplicates());
    assert(b.no_duplicates());
    a.lemma_multiset_has_no_duplicates();
    b.lemma_multiset_has_no_duplicates();
    assert forall|x: i64| a.to_multiset().count(x) == b.to_multiset().count(x) by {
        assert(a.contains(x) <==> b.contains(x));
        assert(a.to_multiset().contains(x) <==> a.to_multiset().count(x) > 0);
        assert(b.to_multiset().contains(x) <==> b.to_multiset().count(x) > 0);
    }
    assert(a.to_multiset() =~= b.to_multiset());
    lemma_listing_unique(a, b);
}

/// A listing that has gained one copy of a key is longer by one and holds
/// that key: a lookup after an insertion finds what was inserted.
pub proof fn lemma_gained(before: Seq<i64>, after: Seq<i64>, key: i64)
    requires
        after.to_multiset() == before.to_multiset().insert(key),
    ensures
        after.len() == before.len() + 1,
        after.contains(key),
        forall|x: i64| #![trigger after.contains(x)] after.contains(x) <==> x == key
            || before.contains(x),
{
    before.to_multiset_ensures();
    after.to_multiset_ensures();
    vstd::multiset::lemma_insert_len(before.to_multiset(), key);
    assert forall|x: i64| #![trigger after.contains(x)] after.contains(x) <==> x == key
        || before.contains(x) by {
        assert(after.to_multiset().count(x) == before.to_multiset().count(x) + if x == key {
            1nat
        } else {
            0nat
        });
    }
}

/// A listing that has lost one copy of a key, if it held one, is shorter by
/// one where it held the key and the same where it did not. Where the
/// listing ascended, a lookup after the removal no longer finds the key.
pub proof fn lemma_lost(before: Seq<i64>, after: Seq<i64>, key: i64)
    requires
        non_descending(before),
        non_descending(after),
        after.to_multiset() == before.to_multiset().remove(key),
    ensures
        before.contains(key) ==> after.len() == before.len() - 1,
        !before.contains(key) ==> after == before,
        forall|x: i64| #![trigger after.contains(x)] x != key ==> (after.contains(x)
            <==> before.contains(x)),
        ascending(before) ==> ascending(after) && !after.contains(key),
{
    before.to_multiset_ensures();
    after.to_multiset_ensures();
    let bag = before.to_multiset();
    if bag.count(key) > 0 {
        assert(bag.remove(key).insert(key) =~= bag);
        vstd::multiset::lemma_insert_len(bag.remove(key), key);
    } else {
        assert(bag.remove(key) =~= bag);
        lemma_listing_unique(after, before);
    }
    assert forall|x: i64| #![trigger after.contains(x)] x != key implies (after.contains(x)
        <==> before.contains(x)) by {
        assert(after.to_multiset().count(x) == bag.count(x));
    }
    if ascending(before) {
        assert(before.no_duplicates());
        before.lemma_multiset_has_no_duplicates();
        assert forall|x: i64| after.to_multiset().contains(x) implies after.to_multiset().count(x)
            == 1 by {
            assert(bag.contains(x));
        }
        after.lemma_multiset_has_no_duplicates_conv();
        assert forall|i: int, j: int| 0 <= i < j < after.len() implies after[i] < after[j] by {
            assert(after[i] <= after[j]);
        }
        if bag.count(key) > 0 {
            assert(bag.contains(key));
        }
        assert(after.to_multiset().count(key) == 0);
    }
}

/// Two to the power of `k`.
pub open spec fn two_to(k: nat) -> nat
    decreases k,
{
    if k == 0 {
        1
    } else {
        2 * two_to((k - 1) as nat)
    }
}

/// The fewest nodes that a balanced tree of the given height can have.
pub open spec fn fewest(height: nat) -> nat
    decreases height,
{
    if height == 0 {
        0
    } else if height == 1 {
        1
    } else {
        fewest((height - 1) as nat) + fewest((height - 2) as nat) + 1
    }
}

/// A taller balanced tree needs no fewer nodes, and the number needed
/// doubles with every two levels.
pub proof fn lemma_fewest(height: nat)
    ensures
        height > 0 ==> fewest((height - 1) as nat) <= fewest(height),
        two_to(height / 2) <= fewest(height) + 1,
    decreases height,
{
    if height >= 2 {
        lemma_fewest((height - 1) as nat);
        lemma_fewest((height - 2) as nat);
        assert(height / 2 == (height - 2) / 2 + 1);
        assert(two_to(height / 2) == 2 * two_to(((height - 2) / 2) as nat));
    } else if height == 1 {
        assert(two_to(0) == 1);
    }
}

/// The plain search tree that grows when the keys 1, 2, and so on up to `n`
/// are inserted in this order.
pub open spec fn ascending_run(n: nat) -> Shape
    decreases n,
{
    if n == 0 {
        Shape::Leaf
    } else {
        ascending_run((n - 1) as nat).with_leaf(n as i64)
    }
}

/// The tree in which the keys from `from` up to `to` hang one below the
/// other, each to the right of the one before.
pub open spec fn right_spine(from: int, to: int) -> Shape
    decreases to - from + 1,
{
    if from > to {
        Shape::Leaf
    } else {
        Shape::Fork {
            left: Box::new(Shape::Leaf),
            value: from as i64,
            right: Box::new(right_spine(from + 1, to)),
        }
    }
}

/// A spine takes the next key at its lower end and is then as tall as it has keys.
proof fn lemma_right_spine(from: int, to: int)
    requires
        1 <= from <= to + 1,
        to < i64::MAX,
    ensures
        right_spine(from, to).with_leaf((to + 1) as i64) == right_spine(from, to + 1),
    decreases to - from + 1,
{
    if from <= to {
        lemma_right_spine(from + 1, to);
    } else {
        assert(right_spine(from + 1, to + 1) == Shape::Leaf);
    }
}

proof fn lemma_right_spine_height(from: int, to: int)
    requires
        from <= to + 1,
    ensures
        right_spine(from, to).height() == to - from + 1,
        right_spine(from, to).size() == to - from + 1,
    decreases to - from + 1,
{
    let leaf = Shape::Leaf;
    assert(leaf.size() == 0 && leaf.height() == 0);
    if from <= to {
        lemma_right_spine_height(from + 1, to);
    }
}

/// Keys inserted in ascending order into a plain search tree hang as one
/// spine: after the keys 1 to `n` the tree has `n` nodes and is `n` tall.
pub proof fn lemma_ascending_run(n: nat)
    requires
        n <= i64::MAX,
    ensures
        ascending_run(n) == right_spine(1, n as int),
        ascending_run(n).height() == n,
        ascending_run(n).size() == n,
    decreases n,
{
    if n > 0 {
        lemma_ascending_run((n - 1) as nat);
        lemma_right_spine(1, n - 1);
    }
    lemma_right_spine_height(1, n as int);
}

/// The larger of two naturals.
pub open spec fn larger(a: nat, b: nat) -> nat {
    if a < b {
        b
    } else {
        a
    }
}

impl Shape {
    /// The tree that holds `value` alone.
    pub open spec fn single(value: i64) -> Shape {
        Shape::Fork { left: Box::new(Shape::Leaf), value, right: Box::new(Shape::Leaf) }
    }

    /// The keys as a left-to-right walk meets them: left subtree, node, right subtree.
    pub open spec fn inorder(self) -> Seq<i64>
        decreases self,
    {
        match self {
            Shape::Leaf => Seq::empty(),
            Shape::Fork { left, value, right } => left.inorder().push(value) + right.inorder(),
        }
    }

    /// The keys with their multiplicities.
    pub open spec fn bag(self) -> Multiset<i64>
        decreases self,
    {
        match self {
            Shape::Leaf => Multiset::empty(),
            Shape::Fork { left, value, right } => left.bag().add(right.bag()).insert(value),
        }
    }

    /// Whether `v` is one of the keys.
    pub open spec fn has(self, v: i64) -> bool {
        self.bag().count(v) > 0
    }

    /// The number of nodes.
    pub open spec fn size(self) -> nat
        decreases self,
    {
        match self {
            Shape::Leaf => 0,
            Shape::Fork { left, value, right } => left.size() + 1 + right.size(),
        }
    }

    /// The number of nodes on the longest way down from the root; 0 for the empty tree.
    pub open spec fn height(self) -> nat
        decreases self,
    {
        match self {
            Shape::Leaf => 0,
            Shape::Fork { left, value, right } => 1 + larger(left.height(), right.height()),
        }
    }

    /// The search-tree order without repeated keys: at every node the keys to
    /// the left are smaller and the keys to the right are greater.
    pub open spec fn strictly_ordered(self) -> bool
        decreases self,
    {
        match self {
            Shape::Leaf => true,
            Shape::Fork { left, value, right } => {
                &&& left.strictly_ordered()
                &&& right.strictly_ordered()
                &&& forall|x: i64| left.bag().count(x) > 0 ==> x < value
                &&& forall|x: i64| right.bag().count(x) > 0 ==> value < x
            },
        }
    }

    /// The search-tree order with repeated keys allowed: at every node no key
    /// to the left is greater and no key to the right is smaller.
    pub open spec fn ordered(self) -> bool
        decreases self,
    {
        match self {
            Shape::Leaf => true,
            Shape::Fork { left, value, right } => {
                &&& left.ordered()
                &&& right.ordered()
                &&& forall|x: i64| left.bag().count(x) > 0 ==> x <= value
                &&& forall|x: i64| right.bag().count(x) > 0 ==> value <= x
            },
        }
    }

    /// At every node the heights of the two subtrees differ by at most one.
    pub open spec fn balanced(self) -> bool
        decreases self,
    {
        match self {
            Shape::Leaf => true,
            Shape::Fork { left, value, right } => {
                &&& left.balanced()
                &&& right.balanced()
                &&& left.height() <= right.height() + 1
                &&& right.height() <= left.height() + 1
            },
        }
    }

    /// The balance factor of the root: the height of the left subtree less the
    /// height of the right one.
    pub open spec fn tilt(self) -> int {
        match self {
            Shape::Leaf => 0,
            Shape::Fork { left, value, right } => left.height() - right.height(),
        }
    }

    /// The tree after a left rotation at the root: the right child becomes
    /// the root, the old root its left child, and the right child's left
    /// subtree moves over to the old root. Without a right child nothing moves.
    pub open spec fn rotated_left(self) -> Shape {
        match self {
            Shape::Fork { left, value, right } => match *right {
                Shape::Fork { left: middle, value: pivot, right: outer } => Shape::Fork {
                    left: Box::new(Shape::Fork { left, value, right: middle }),
                    value: pivot,
                    right: outer,
                },
                Shape::Leaf => self,
            },
            Shape::Leaf => self,
        }
    }

    /// The tree after a right rotation at the root, the mirror image of a
    /// left rotation.
    pub open spec fn rotated_right(self) -> Shape {
        match self {
            Shape::Fork { left, value, right } => match *left {
                Shape::Fork { left: outer, value: pivot, right: middle } => Shape::Fork {
                    left: outer,
                    value: pivot,
                    right: Box::new(Shape::Fork { left: middle, value, right }),
                },
                Shape::Leaf => self,
            },
            Shape::Leaf => self,
        }
    }

    /// The tree after its root is rebalanced. A root that leans left by two
    /// is rotated right, after its left child was rotated left if that child
    /// leans right by one. A root that leans right by two is treated in the
    /// mirrored way. Any other root stays.
    pub open spec fn rebalanced(self) -> Shape {
        match self {
            Shape::Leaf => self,
            Shape::Fork { left, value, right } => {
                if self.tilt() == -2 {
                    if right.tilt() == 1 {
                        (Shape::Fork {
                            left,
                            value,
                            right: Box::new(right.rotated_right()),
                        }).rotated_left()
                    } else {
                        self.rotated_left()
                    }
                } else if self.tilt() == 2 {
                    if left.tilt() == -1 {
                        (Shape::Fork {
                            left: Box::new(left.rotated_left()),
                            value,
                            right,
                        }).rotated_right()
                    } else {
                        self.rotated_right()
                    }
                } else {
                    self
                }
            },
        }
    }

    /// The tree after a height-balanced insertion of `v`: a leaf is hung where
    /// the search path ends, and every node on the path is rebalanced on the
    /// way back, the lowest first. A tree that holds `v` already stays as it
    /// is, if it was balanced.
    pub open spec fn with_leaf_balanced(self, v: i64) -> Shape
        decreases self,
    {
        match self {
            Shape::Leaf => Shape::single(v),
            Shape::Fork { left, value, right } => {
                if value < v {
                    (Shape::Fork {
                        left,
                        value,
                        right: Box::new(right.with_leaf_balanced(v)),
                    }).rebalanced()
                } else if v < value {
                    (Shape::Fork {
                        left: Box::new(left.with_leaf_balanced(v)),
                        value,
                        right,
                    }).rebalanced()
                } else {
                    self
                }
            },
        }
    }

    /// The tree after its leftmost node is cut out, that node's right subtree
    /// has taken its place, and every node passed on the way is rebalanced.
    pub open spec fn without_least_balanced(self) -> Shape
        recommends
            self is Fork,
        decreases self,
    {
        match self {
            Shape::Leaf => Shape::Leaf,
            Shape::Fork { left, value, right } => {
                if *left is Leaf {
                    *right
                } else {
                    (Shape::Fork {
                        left: Box::new(left.without_least_balanced()),
                        value,
                        right,
                    }).rebalanced()
                }
            },
        }
    }

    /// The tree after its root is deleted the height-balanced way: a root
    /// with at most one child gives way to that child; a root with two
    /// children takes the key of its successor, which is cut out of the right
    /// subtree with rebalancing, and is then rebalanced itself.
    pub open spec fn uprooted_balanced(self) -> Shape
        recommends
            self is Fork,
    {
        match self {
            Shape::Leaf => Shape::Leaf,
            Shape::Fork { left, value, right } => {
                if *right is Leaf {
                    *left
                } else if *left is Leaf {
                    *right
                } else {
                    (Shape::Fork {
                        left,
                        value: right.least(),
                        right: Box::new(right.without_least_balanced()),
                    }).rebalanced()
                }
            },
        }
    }

    /// The tree after a height-balanced deletion of `v`: the node found on
    /// the search path is uprooted, and every node on the path above it is
    /// rebalanced on the way back. A tree without `v` stays as it is, if it
    /// was balanced.
    pub open spec fn without_balanced(self, v: i64) -> Shape
        decreases self,
    {
        match self {
            Shape::Leaf => Shape::Leaf,
            Shape::Fork { left, value, right } => {
                if value < v {
                    (Shape::Fork {
                        left,
                        value,
                        right: Box::new(right.without_balanced(v)),
                    }).rebalanced()
                } else if v < value {
                    (Shape::Fork {
                        left: Box::new(left.without_balanced(v)),
                        value,
                        right,
                    }).rebalanced()
                } else {
                    self.uprooted_balanced()
                }
            },
        }
    }

    /// The tree after a plain search-tree insertion of `v`: the search path is
    /// followed to the first empty place and a leaf is hung there; a tree that
    /// holds `v` already stays as it is.
    pub open spec fn with_leaf(self, v: i64) -> Shape
        decreases self,
    {
        match self {
            Shape::Leaf => Shape::single(v),
            Shape::Fork { left, value, right } => {
                if value < v {
                    Shape::Fork { left, value, right: Box::new(right.with_leaf(v)) }
                } else if v < value {
                    Shape::Fork { left: Box::new(left.with_leaf(v)), value, right }
                } else {
                    self
                }
            },
        }
    }

    /// The key of the leftmost node.
    pub open spec fn least(self) -> i64
        recommends
            self is Fork,
        decreases self,
    {
        match self {
            Shape::Leaf => 0,
            Shape::Fork { left, value, right } => {
                if *left is Leaf {
                    value
                } else {
                    left.least()
                }
            },
        }
    }

    /// The tree after its leftmost node is cut out and that node's right
    /// subtree has taken its place.
    pub open spec fn without_least(self) -> Shape
        recommends
            self is Fork,
        decreases self,
    {
        match self {
            Shape::Leaf => Shape::Leaf,
            Shape::Fork { left, value, right } => {
                if *left is Leaf {
                    *right
                } else {
                    Shape::Fork { left: Box::new(left.without_least()), value, right }
                }
            },
        }
    }

    /// The tree after its root is deleted the search-tree way: a root with at
    /// most one child gives way to that child; a root with two children takes
    /// the key of its successor, the leftmost node to its right, which is cut out.
    pub open spec fn uprooted(self) -> Shape
        recommends
            self is Fork,
    {
        match self {
            Shape::Leaf => Shape::Leaf,
            Shape::Fork { left, value, right } => {
                if *right is Leaf {
                    *left
                } else if *left is Leaf {
                    *right
                } else {
                    Shape::Fork {
                        left,
                        value: right.least(),
                        right: Box::new(right.without_least()),
                    }
                }
            },
        }
    }

    /// The tree after a plain search-tree deletion of `v`: the node found on
    /// the search path for `v` is uprooted; a tree without `v` stays as it is.
    pub open spec fn without(self, v: i64) -> Shape
        decreases self,
    {
        match self {
            Shape::Leaf => Shape::Leaf,
            Shape::Fork { left, value, right } => {
                if value < v {
                    Shape::Fork { left, value, right: Box::new(right.without(v)) }
                } else if v < value {
                    Shape::Fork { left: Box::new(left.without(v)), value, right }
                } else {
                    self.uprooted()
                }
            },
        }
    }

    /// The listing holds exactly the keys of the bag, as often, and one item per node.
    pub proof fn lemma_inorder_bag(self)
        ensures
            self.inorder().to_multiset() =~= self.bag(),
            self.inorder().len() == self.size(),
            self.bag().len() == self.size(),
            forall|x: i64|
                #![trigger self.inorder().contains(x)]
                #![trigger self.bag().count(x)]
                self.inorder().contains(x) <==> self.bag().count(x) > 0,
        decreases self,
    {
        broadcast use group_to_multiset_ensures;

        match self {
            Shape::Leaf => {
                assert(self.inorder().to_multiset().len() == 0);
            },
            Shape::Fork { left, value, right } => {
                left.lemma_inorder_bag();
                right.lemma_inorder_bag();
                lemma_multiset_commutative(left.inorder().push(value), right.inorder());
            },
        }
    }

    /// A tree in strict search-tree order lists its keys in ascending order.
    pub proof fn lemma_strictly_ordered_ascending(self)
        requires
            self.strictly_ordered(),
        ensures
            ascending(self.inorder()),
        decreases self,
    {
        match self {
            Shape::Leaf => {},
            Shape::Fork { left, value, right } => {
                left.lemma_strictly_ordered_ascending();
                right.lemma_strictly_ordered_ascending();
                left.lemma_inorder_bag();
                right.lemma_inorder_bag();
                let l = left.inorder();
                let r = right.inorder();
                let s = self.inorder();
                assert forall|i: int, j: int| 0 <= i < j < s.len() implies s[i] < s[j] by {
                    if i < l.len() {
                        assert(s[i] == l[i]);
                        assert(l.contains(l[i]));
                        assert(left.has(l[i]));
                    } else if i == l.len() {
                        assert(s[i] == value);
                    } else {
                        assert(s[i] == r[i - l.len() - 1]);
                        assert(r.contains(r[i - l.len() - 1]));
                        assert(right.has(r[i - l.len() - 1]));
                    }
                    if j < l.len() {
                        assert(s[j] == l[j]);
                    } else if j == l.len() {
                        assert(s[j] == value);
                    } else {
                        assert(s[j] == r[j - l.len() - 1]);
                        assert(r.contains(r[j - l.len() - 1]));
                        assert(right.has(r[j - l.len() - 1]));
                    }
                }
            },
        }
    }

    /// A tree in search-tree order lists its keys without a descent.
    pub proof fn lemma_ordered_non_descending(self)
        requires
            self.ordered(),
        ensures
            non_descending(self.inorder()),
        decreases self,
    {
        match self {
            Shape::Leaf => {},
            Shape::Fork { left, value, right } => {
                left.lemma_ordered_non_descending();
                right.lemma_ordered_non_descending();
                left.lemma_inorder_bag();
                right.lemma_inorder_bag();
                let l = left.inorder();
                let r = right.inorder();
                let s = self.inorder();
                assert forall|i: int, j: int| 0 <= i < j < s.len() implies s[i] <= s[j] by {
                    if i < l.len() {
                        assert(s[i] == l[i]);
                        assert(l.contains(l[i]));
                        assert(left.has(l[i]));
                    } else if i == l.len() {
                        assert(s[i] == value);
                    } else {
                        assert(s[i] == r[i - l.len() - 1]);
                        assert(r.contains(r[i - l.len() - 1]));
                        assert(right.has(r[i - l.len() - 1]));
                    }
                    if j < l.len() {
                        assert(s[j] == l[j]);
                    } else if j == l.len() {
                        assert(s[j] == value);
                    } else {
                        assert(s[j] == r[j - l.len() - 1]);
                        assert(r.contains(r[j - l.len() - 1]));
                        assert(right.has(r[j - l.len() - 1]));
                    }
                }
            },
        }
    }

    /// Strict order is order, and in strict order no key occurs twice.
    pub proof fn lemma_strict_no_repeats(self)
        requires
            self.strictly_ordered(),
        ensures
            self.ordered(),
            forall|x: i64| self.bag().count(x) <= 1,
        decreases self,
    {
        match self {
            Shape::Leaf => {},
            Shape::Fork { left, value, right } => {
                left.lemma_strict_no_repeats();
                right.lemma_strict_no_repeats();
                assert forall|x: i64| self.bag().count(x) <= 1 by {
                    assert(left.bag().count(x) <= 1);
                    assert(right.bag().count(x) <= 1);
                    assert(self.bag().count(x) == left.bag().count(x) + right.bag().count(x) + if x
                        == value {
                        1nat
                    } else {
                        0nat
                    });
                }
            },
        }
    }

    /// A plain insertion keeps the strict order, adds the key where it was
    /// missing and changes nothing where it was present.
    pub proof fn lemma_with_leaf(self, v: i64)
        requires
            self.strictly_ordered(),
        ensures
            self.with_leaf(v).strictly_ordered(),
            self.has(v) ==> self.with_leaf(v) == self,
            !self.has(v) ==> self.with_leaf(v).bag() =~= self.bag().insert(v),
            !self.has(v) ==> self.with_leaf(v).size() == self.size() + 1,
            self.with_leaf(v).has(v),
        decreases self,
    {
        match self {
            Shape::Leaf => {},
            Shape::Fork { left, value, right } => {
                if value < v {
                    right.lemma_with_leaf(v);
                    assert(left.bag().count(v) == 0);
                } else if v < value {
                    left.lemma_with_leaf(v);
                    assert(right.bag().count(v) == 0);
                }
            },
        }
    }

    /// Cutting out the leftmost node removes the smallest key and keeps the
    /// strict order.
    pub proof fn lemma_without_least(self)
        requires
            self is Fork,
            self.strictly_ordered(),
        ensures
            self.has(self.least()),
            self.without_least().strictly_ordered(),
            self.without_least().bag() =~= self.bag().remove(self.least()),
            self.without_least().size() + 1 == self.size(),
            forall|x: i64| self.without_least().bag().count(x) > 0 ==> self.least() < x,
        decreases self,
    {
        self.lemma_strict_no_repeats();
        match self {
            Shape::Leaf => {},
            Shape::Fork { left, value, right } => {
                if *left is Fork {
                    left.lemma_without_least();
                    assert(left.bag().count(left.least()) > 0);
                    assert(right.bag().count(left.least()) == 0);
                } else {
                    assert(right.bag().count(value) == 0);
                }
            },
        }
    }

    /// Deleting the root removes its key and keeps the strict order.
    pub proof fn lemma_uprooted(self)
        requires
            self is Fork,
            self.strictly_ordered(),
        ensures
            self.uprooted().strictly_ordered(),
            self.uprooted().bag() =~= self.bag().remove(self->value),
            self.uprooted().size() + 1 == self.size(),
            !self.uprooted().has(self->value),
        decreases self,
    {
        self.lemma_strict_no_repeats();
        match self {
            Shape::Leaf => {},
            Shape::Fork { left, value, right } => {
                assert(left.bag().count(value) == 0);
                assert(right.bag().count(value) == 0);
                if *right is Fork && *left is Fork {
                    right.lemma_without_least();
                    assert(right.bag().count(right.least()) > 0);
                } else if *right is Leaf {
                    assert(right.size() == 0);
                } else {
                    assert(left.size() == 0);
                }
            },
        }
    }

    /// A plain deletion keeps the strict order, removes the key where it was
    /// present and changes nothing where it was missing.
    pub proof fn lemma_without(self, v: i64)
        requires
            self.strictly_ordered(),
        ensures
            self.without(v).strictly_ordered(),
            !self.has(v) ==> self.without(v) == self,
            self.without(v).bag() =~= self.bag().remove(v),
            self.has(v) ==> self.without(v).size() + 1 == self.size(),
            !self.without(v).has(v),
        decreases self,
    {
        match self {
            Shape::Leaf => {},
            Shape::Fork { left, value, right } => {
                if value < v {
                    right.lemma_without(v);
                    assert(left.bag().count(v) == 0);
                } else if v < value {
                    left.lemma_without(v);
                    assert(right.bag().count(v) == 0);
                } else {
                    self.lemma_uprooted();
                }
            },
        }
    }

    /// A rotation keeps the listing, and with it the keys and their order.
    pub proof fn lemma_rotated(self)
        ensures
            self.rotated_left().inorder() =~= self.inorder(),
            self.rotated_right().inorder() =~= self.inorder(),
            self.rotated_left().bag() =~= self.bag(),
            self.rotated_right().bag() =~= self.bag(),
            self.strictly_ordered() ==> self.rotated_left().strictly_ordered()
                && self.rotated_right().strictly_ordered(),
    {
        match self {
            Shape::Leaf => {},
            Shape::Fork { left, value, right } => {
                match *right {
                    Shape::Leaf => {},
                    Shape::Fork { left: middle, value: pivot, right: outer } => {
                        let inner = Shape::Fork { left, value, right: middle };
                        let turned = Shape::Fork {
                            left: Box::new(inner),
                            value: pivot,
                            right: outer,
                        };
                        assert(self.rotated_left() == turned);
                        assert(right.inorder() == middle.inorder().push(pivot) + outer.inorder());
                        assert(inner.inorder() == left.inorder().push(value) + middle.inorder());
                        assert(turned.inorder() == inner.inorder().push(pivot) + outer.inorder());
                        assert(turned.inorder() =~= self.inorder());
                        assert(right.bag() == middle.bag().add(outer.bag()).insert(pivot));
                        assert(inner.bag() == left.bag().add(middle.bag()).insert(value));
                        assert(turned.bag() == inner.bag().add(outer.bag()).insert(pivot));
                        assert(turned.bag() =~= self.bag());
                        if self.strictly_ordered() {
                            assert(right.bag().count(pivot) > 0);
                            assert(right.strictly_ordered());
                            assert forall|x: i64| inner.bag().count(x) > 0 implies x < pivot by {
                                if middle.bag().count(x) > 0 {
                                } else if left.bag().count(x) > 0 {
                                    assert(x < value);
                                }
                            }
                            assert forall|x: i64| middle.bag().count(x) > 0 implies value < x by {
                                assert(right.bag().count(x) > 0);
                            }
                            assert(inner.strictly_ordered());
                            assert(turned.strictly_ordered());
                        }
                    },
                }
                match *left {
                    Shape::Leaf => {},
                    Shape::Fork { left: outer, value: pivot, right: middle } => {
                        let inner = Shape::Fork { left: middle, value, right };
                        let turned = Shape::Fork {
                            left: outer,
                            value: pivot,
                            right: Box::new(inner),
                        };
                        assert(self.rotated_right() == turned);
                        assert(left.inorder() == outer.inorder().push(pivot) + middle.inorder());
                        assert(inner.inorder() == middle.inorder().push(value) + right.inorder());
                        assert(turned.inorder() == outer.inorder().push(pivot) + inner.inorder());
                        assert(turned.inorder() =~= self.inorder());
                        assert(left.bag() == outer.bag().add(middle.bag()).insert(pivot));
                        assert(inner.bag() == middle.bag().add(right.bag()).insert(value));
                        assert(turned.bag() == outer.bag().add(inner.bag()).insert(pivot));
                        assert(turned.bag() =~= self.bag());
                        if self.strictly_ordered() {
                            assert(left.bag().count(pivot) > 0);
                            assert(left.strictly_ordered());
                            assert forall|x: i64| inner.bag().count(x) > 0 implies pivot < x by {
                                if middle.bag().count(x) > 0 {
                                } else if right.bag().count(x) > 0 {
                                    assert(value < x);
                                }
                            }
                            assert forall|x: i64| middle.bag().count(x) > 0 implies x < value by {
                                assert(left.bag().count(x) > 0);
                            }
                            assert(inner.strictly_ordered());
                            assert(turned.strictly_ordered());
                        }
                    },
                }
            },
        }
    }

    /// A rotation towards the lighter side does not add height.
    pub proof fn lemma_rotated_height(self)
        ensures
            self.tilt() >= 1 ==> self.rotated_right().height() <= self.height(),
            self.tilt() <= -1 ==> self.rotated_left().height() <= self.height(),
    {
        match self {
            Shape::Leaf => {},
            Shape::Fork { left, value, right } => {
                Self::lemma_fork(*left, value, *right);
                match *left {
                    Shape::Leaf => {},
                    Shape::Fork { left: outer, value: pivot, right: middle } => {
                        let inner = Shape::Fork { left: middle, value, right };
                        Self::lemma_fork(*outer, pivot, *middle);
                        Self::lemma_fork(*middle, value, *right);
                        Self::lemma_fork(*outer, pivot, inner);
                    },
                }
                match *right {
                    Shape::Leaf => {},
                    Shape::Fork { left: middle, value: pivot, right: outer } => {
                        let inner = Shape::Fork { left, value, right: middle };
                        Self::lemma_fork(*middle, pivot, *outer);
                        Self::lemma_fork(*left, value, *middle);
                        Self::lemma_fork(inner, pivot, *outer);
                    },
                }
            },
        }
    }

    /// A tree in search-tree order in which no key occurs twice is in strict order.
    pub proof fn lemma_no_repeats_strict(self)
        requires
            self.ordered(),
            forall|x: i64| self.bag().count(x) <= 1,
        ensures
            self.strictly_ordered(),
        decreases self,
    {
        match self {
            Shape::Leaf => {},
            Shape::Fork { left, value, right } => {
                assert forall|x: i64| left.bag().count(x) <= 1 by {
                    assert(self.bag().count(x) <= 1);
                }
                assert forall|x: i64| right.bag().count(x) <= 1 by {
                    assert(self.bag().count(x) <= 1);
                }
                left.lemma_no_repeats_strict();
                right.lemma_no_repeats_strict();
                assert(self.bag().count(value) <= 1);
            },
        }
    }

    /// For a tree in search-tree order these say the same: the order is
    /// strict, the listing ascends, no key occurs twice.
    pub proof fn lemma_ordered_strict(self)
        requires
            self.ordered(),
        ensures
            self.strictly_ordered() <==> ascending(self.inorder()),
            self.strictly_ordered() <==> (forall|x: i64| self.bag().count(x) <= 1),
    {
        self.lemma_inorder_bag();
        if self.strictly_ordered() {
            self.lemma_strictly_ordered_ascending();
            self.lemma_strict_no_repeats();
        }
        if ascending(self.inorder()) {
            let s = self.inorder();
            assert(s.no_duplicates());
            s.lemma_multiset_has_no_duplicates();
            assert forall|x: i64| self.bag().count(x) <= 1 by {
                if self.bag().count(x) > 0 {
                    assert(s.to_multiset().contains(x));
                }
            }
        }
        if forall|x: i64| self.bag().count(x) <= 1 {
            self.lemma_no_repeats_strict();
        }
    }

    /// What holds of a tree with one key.
    pub proof fn lemma_single(value: i64)
        ensures
            Shape::single(value).inorder() =~= seq![value],
            Shape::single(value).bag() =~= Multiset::empty().insert(value),
            Shape::single(value).size() == 1,
            Shape::single(value).height() == 1,
            Shape::single(value).strictly_ordered(),
            Shape::single(value).ordered(),
            Shape::single(value).balanced(),
    {
        let leaf = Shape::Leaf;
        assert(leaf.inorder() =~= Seq::<i64>::empty());
        assert(leaf.bag() =~= Multiset::<i64>::empty());
        assert(leaf.size() == 0 && leaf.height() == 0);
        assert(leaf.strictly_ordered() && leaf.ordered() && leaf.balanced());
    }

    /// What height and balance are at a root, in terms of its two subtrees.
    pub proof fn lemma_fork(left: Shape, value: i64, right: Shape)
        ensures
            ({
                let fork = Shape::Fork { left: Box::new(left), value, right: Box::new(right) };
                &&& fork.height() == 1 + larger(left.height(), right.height())
                &&& fork.tilt() == left.height() - right.height()
                &&& fork.size() == left.size() + 1 + right.size()
                &&& fork.balanced() == (left.balanced() && right.balanced() && -1 <= fork.tilt()
                    <= 1)
            }),
    {
    }

    /// Rebalancing keeps the listing and never adds height. At a root whose
    /// subtrees are balanced and differ in height by at most two it restores
    /// the balance and takes at most one level off.
    pub proof fn lemma_rebalanced(self)
        ensures
            self.rebalanced().inorder() =~= self.inorder(),
            self.rebalanced().bag() =~= self.bag(),
            self.rebalanced().size() == self.size(),
            self.strictly_ordered() ==> self.rebalanced().strictly_ordered(),
            self.rebalanced().height() <= self.height(),
            -1 <= self.tilt() <= 1 ==> self.rebalanced() == self,
            self matches Shape::Fork { left, value, right } && left.balanced() && right.balanced()
                && -2 <= self.tilt() <= 2 ==> self.rebalanced().balanced() && self.height()
                <= self.rebalanced().height() + 1,
    {
        match self {
            Shape::Leaf => {},
            Shape::Fork { left, value, right } => {
                Self::lemma_fork(*left, value, *right);
                if self.tilt() == -2 {
                    match *right {
                        Shape::Leaf => {},
                        Shape::Fork { left: rl, value: rv, right: rr } => {
                            Self::lemma_fork(*rl, rv, *rr);
                            if right.tilt() == 1 {
                                match *rl {
                                    Shape::Leaf => {},
                                    Shape::Fork { left: rll, value: rlv, right: rlr } => {
                                        Self::lemma_fork(*rll, rlv, *rlr);
                                        let low = Shape::Fork { left: rlr, value: rv, right: rr };
                                        let turned_right = Shape::Fork {
                                            left: rll,
                                            value: rlv,
                                            right: Box::new(low),
                                        };
                                        let turned = Shape::Fork {
                                            left,
                                            value,
                                            right: Box::new(turned_right),
                                        };
                                        let inner = Shape::Fork { left, value, right: rll };
                                        let top = Shape::Fork {
                                            left: Box::new(inner),
                                            value: rlv,
                                            right: Box::new(low),
                                        };
                                        assert(right.rotated_right() == turned_right);
                                        assert(turned.rotated_left() == top);
                                        assert(self.rebalanced() == top);
                                        Self::lemma_fork(*rlr, rv, *rr);
                                        Self::lemma_fork(*left, value, *rll);
                                        Self::lemma_fork(inner, rlv, low);
                                        right.lemma_rotated();
                                        turned.lemma_rotated();
                                        assert(turned.inorder() =~= self.inorder());
                                        assert(turned.bag() =~= self.bag());
                                        if self.strictly_ordered() {
                                            assert(turned.strictly_ordered());
                                        }
                                    },
                                }
                            } else {
                                let inner = Shape::Fork { left, value, right: rl };
                                let top = Shape::Fork {
                                    left: Box::new(inner),
                                    value: rv,
                                    right: rr,
                                };
                                assert(self.rebalanced() == top);
                                Self::lemma_fork(*left, value, *rl);
                                Self::lemma_fork(inner, rv, *rr);
                                self.lemma_rotated();
                            }
                        },
                    }
                } else if self.tilt() == 2 {
                    match *left {
                        Shape::Leaf => {},
                        Shape::Fork { left: ll, value: lv, right: lr } => {
                            Self::lemma_fork(*ll, lv, *lr);
                            if left.tilt() == -1 {
                                match *lr {
                                    Shape::Leaf => {},
                                    Shape::Fork { left: lrl, value: lrv, right: lrr } => {
                                        Self::lemma_fork(*lrl, lrv, *lrr);
                                        let low = Shape::Fork { left: ll, value: lv, right: lrl };
                                        let turned_left = Shape::Fork {
                                            left: Box::new(low),
                                            value: lrv,
                                            right: lrr,
                                        };
                                        let turned = Shape::Fork {
                                            left: Box::new(turned_left),
                                            value,
                                            right,
                                        };
                                        let inner = Shape::Fork { left: lrr, value, right };
                                        let top = Shape::Fork {
                                            left: Box::new(low),
                                            value: lrv,
                                            right: Box::new(inner),
                                        };
                                        assert(left.rotated_left() == turned_left);
                                        assert(turned.rotated_right() == top);
                                        assert(self.rebalanced() == top);
                                        Self::lemma_fork(*ll, lv, *lrl);
                                        Self::lemma_fork(*lrr, value, *right);
                                        Self::lemma_fork(low, lrv, inner);
                                        left.lemma_rotated();
                                        turned.lemma_rotated();
                                        assert(turned.inorder() =~= self.inorder());
                                        assert(turned.bag() =~= self.bag());
                                        if self.strictly_ordered() {
                                            assert(turned.strictly_ordered());
                                        }
                                    },
                                }
                            } else {
                                let inner = Shape::Fork { left: lr, value, right };
                                let top = Shape::Fork {
                                    left: ll,
                                    value: lv,
                                    right: Box::new(inner),
                                };
                                assert(self.rebalanced() == top);
                                Self::lemma_fork(*lr, value, *right);
                                Self::lemma_fork(*ll, lv, inner);
                                self.lemma_rotated();
                            }
                        },
                    }
                }
            },
        }
    }

    /// A balanced tree has at least the fewest nodes for its height, so its
    /// height is at most about twice the logarithm of its size.
    pub proof fn lemma_balanced_size(self)
        requires
            self.balanced(),
        ensures
            fewest(self.height()) <= self.size(),
            two_to(self.height() / 2) <= self.size() + 1,
        decreases self,
    {
        lemma_fewest(self.height());
        match self {
            Shape::Leaf => {},
            Shape::Fork { left, value, right } => {
                left.lemma_balanced_size();
                right.lemma_balanced_size();
                lemma_fewest(left.height());
                lemma_fewest(right.height());
                let h = self.height();
                if h >= 2 {
                    lemma_fewest((h - 1) as nat);
                }
            },
        }
    }
}

} // verus!
