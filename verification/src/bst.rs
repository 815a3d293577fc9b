//! The unbalanced baseline: a plain binary search tree.
//!
//! Nothing is ever rebalanced, so keys inserted in ascending order hang as one
//! long right spine and every operation on such a tree is linear. That is the
//! known weakness of this engine, kept as it is for comparison.

use crate::shape::{ascending, Shape};
use crate::Tree;
use vstd::pervasive::unreached;
use vstd::prelude::*;

verus! {

pub type BSTree = Option<Box<BstNode>>;

#[derive(Debug, PartialEq)]
pub struct BstNode {
    value: i64,
    left: BSTree,
    right: BSTree,
}

/// The outline of the tree that hangs in a slot.
pub closed spec fn shape_of(tree: BSTree) -> Shape
    decreases tree,
{
    match tree {
        None => Shape::Leaf,
        Some(node) => Shape::Fork {
            left: Box::new(shape_of(node.left)),
            value: node.value,
            right: Box::new(shape_of(node.right)),
        },
    }
}

/// How the outline of a slot follows from what hangs in it.
proof fn lemma_shape_of(tree: BSTree)
    ensures
        tree is None <==> shape_of(tree) is Leaf,
        tree matches Some(node) ==> shape_of(tree) == (Shape::Fork {
            left: Box::new(shape_of(node.left)),
            value: node.value,
            right: Box::new(shape_of(node.right)),
        }),
{
}

impl BstNode {
    /// The outline of the tree below this node, the node included.
    pub closed spec fn shape(self) -> Shape {
        Shape::Fork {
            left: Box::new(shape_of(self.left)),
            value: self.value,
            right: Box::new(shape_of(self.right)),
        }
    }

    /// A node with `value` and no children.
    pub fn new(value: i64) -> (node: Self)
        ensures
            node.shape() == Shape::single(value),
    {
        proof {
            lemma_shape_of(None);
        }
        Self { value, left: None, right: None }
    }
}

impl Clone for BstNode {
    fn clone(&self) -> (copy: Self)
        ensures
            copy == *self,
        decreases self,
    {
        BstNode {
            value: self.value,
            left: clone_subtree(&self.left),
            right: clone_subtree(&self.right),
        }
    }
}

fn clone_subtree(tree: &BSTree) -> (copy: BSTree)
    ensures
        copy == *tree,
    decreases tree,
{
    match tree {
        None => None,
        Some(node) => Some(Box::new((**node).clone())),
    }
}

/// An ordered set of `i64` in an unbalanced binary search tree.
#[derive(Debug, PartialEq)]
pub struct BstSet {
    root: BSTree,
}

impl View for BstSet {
    type V = Seq<i64>;

    /// The keys in ascending order.
    open spec fn view(&self) -> Seq<i64> {
        self.shape().inorder()
    }
}

impl BstSet {
    /// The outline of the tree.
    pub closed spec fn shape(self) -> Shape {
        shape_of(self.root)
    }

    /// What holds of every set: its tree is in strict search-tree order.
    #[verifier::type_invariant]
    pub open spec fn wf(self) -> bool {
        self.shape().strictly_ordered()
    }

    /// The listing of every sound set ascends.
    pub proof fn lemma_wf(self)
        requires
            self.wf(),
        ensures
            ascending(self@),
    {
        self.shape().lemma_strictly_ordered_ascending();
    }

    /// Adds `value` unless the set holds it already; says whether it was added.
    ///
    /// The tree is searched for `value` from the root. Where the search runs
    /// out of nodes, a new leaf is hung; nothing else moves.
    pub fn insert(&mut self, value: i64) -> (added: bool)
        ensures
            added == !old(self)@.contains(value),
            added ==> final(self)@.to_multiset() == old(self)@.to_multiset().insert(value),
            !added ==> final(self)@ == old(self)@,
            final(self)@.len() == old(self)@.len() + if added { 1int } else { 0int },
            forall|x: i64|
                #![trigger final(self)@.contains(x)]
                final(self)@.contains(x) <==> x == value || old(self)@.contains(x),
            ascending(final(self)@),
            final(self).shape() == old(self).shape().with_leaf(value),
    {
        proof {
            use_type_invariant(&*self);
            self.shape().lemma_with_leaf(value);
            self.shape().lemma_inorder_bag();
            self.shape().with_leaf(value).lemma_inorder_bag();
            self.shape().with_leaf(value).lemma_strictly_ordered_ascending();
        }
        let mut root: BSTree = None;
        std::mem::swap(&mut self.root, &mut root);
        let added = insert_at(&mut root, value);
        self.root = root;
        added
    }

    /// Whether the set holds `value`.
    pub fn search(&self, value: i64) -> (found: bool)
        ensures
            found == self@.contains(value),
    {
        proof {
            use_type_invariant(self);
            self.shape().lemma_inorder_bag();
        }
        let mut current = &self.root;
        loop
            invariant
                shape_of(*current).strictly_ordered(),
                shape_of(self.root).has(value) == shape_of(*current).has(value),
                self@.contains(value) == shape_of(self.root).has(value),
            decreases *current,
        {
            match current {
                None => {
                    return false;
                },
                Some(node) => {
                    if node.value < value {
                        assert(!shape_of(node.left).has(value));
                        current = &node.right;
                    } else if value < node.value {
                        assert(!shape_of(node.right).has(value));
                        current = &node.left;
                    } else {
                        return true;
                    }
                },
            }
        }
    }

    /// Takes `value` out of the set; gives it back if it was there.
    ///
    /// The node that holds `value` is found from the root. With at most one
    /// child it gives way to that child. With two children it takes the key of
    /// its successor, the leftmost node of its right subtree, and that node is
    /// cut out instead.
    pub fn remove(&mut self, value: i64) -> (taken: Option<i64>)
        ensures
            taken == if old(self)@.contains(value) { Some(value) } else { None::<i64> },
            final(self)@.to_multiset() == old(self)@.to_multiset().remove(value),
            taken is None ==> final(self)@ == old(self)@,
            final(self)@.len() == old(self)@.len() - if taken is Some { 1int } else { 0int },
            forall|x: i64|
                #![trigger final(self)@.contains(x)]
                final(self)@.contains(x) <==> x != value && old(self)@.contains(x),
            ascending(final(self)@),
            final(self).shape() == old(self).shape().without(value),
    {
        proof {
            use_type_invariant(&*self);
            self.shape().lemma_without(value);
            self.shape().lemma_strict_no_repeats();
            self.shape().lemma_inorder_bag();
            self.shape().without(value).lemma_inorder_bag();
            self.shape().without(value).lemma_strictly_ordered_ascending();
        }
        let mut root: BSTree = None;
        std::mem::swap(&mut self.root, &mut root);
        let taken = remove_at(&mut root, value);
        self.root = root;
        taken
    }

    /// The number of nodes on the longest way from the root down, or the
    /// largest `usize` where the tree is taller than that.
    pub fn height(&self) -> (height: usize)
        ensures
            height == capped(self.shape().height()),
    {
        height_of(&self.root)
    }

    /// A walk over the keys in ascending order, from the smallest.
    pub fn iter(&self) -> (walk: BstIter<'_>)
        ensures
            walk.remaining() == self@,
            ascending(walk.remaining()),
    {
        proof {
            use_type_invariant(self);
            self.shape().lemma_strictly_ordered_ascending();
        }
        BstIter { prev_nodes: Vec::new(), current: &self.root }
    }
}

impl Default for BstSet {
    fn default() -> (set: Self)
        ensures
            set@ == Seq::<i64>::empty(),
            set.shape() == Shape::Leaf,
    {
        BstSet { root: None }
    }
}

impl Clone for BstSet {
    fn clone(&self) -> (copy: Self)
        ensures
            copy == *self,
    {
        proof {
            use_type_invariant(self);
        }
        BstSet { root: clone_subtree(&self.root) }
    }
}

impl Tree for BstSet {
    open spec fn listing(&self) -> Seq<i64> {
        self@
    }

    open spec fn accepts(&self, value: i64) -> bool {
        !self@.contains(value)
    }

    open spec fn yields(&self, value: i64) -> bool {
        self@.contains(value)
    }

    fn insert(&mut self, value: i64) -> (added: bool) {
        BstSet::insert(self, value)
    }

    fn remove(&mut self, value: i64) -> (taken: Option<i64>) {
        BstSet::remove(self, value)
    }

    fn search(&self, value: i64) -> (found: bool) {
        BstSet::search(self, value)
    }
}

/// A height as a machine word holds it: itself, or the largest `usize` where
/// it is beyond that.
pub open spec fn capped(height: nat) -> nat {
    if height <= usize::MAX {
        height
    } else {
        usize::MAX as nat
    }
}

fn height_of(tree: &BSTree) -> (height: usize)
    ensures
        height == capped(shape_of(*tree).height()),
    decreases tree,
{
    match tree {
        None => 0,
        Some(node) => {
            let left = height_of(&node.left);
            let right = height_of(&node.right);
            let taller = if left < right {
                right
            } else {
                left
            };
            if taller == usize::MAX {
                taller
            } else {
                taller + 1
            }
        },
    }
}

/// Hangs a leaf with `value` where the search for it ends, unless it is found.
fn insert_at(tree: &mut BSTree, value: i64) -> (added: bool)
    requires
        shape_of(*old(tree)).strictly_ordered(),
    ensures
        added == !shape_of(*old(tree)).has(value),
        shape_of(*final(tree)) == shape_of(*old(tree)).with_leaf(value),
{
    let mut current = tree;
    loop
        invariant
            shape_of(*current).strictly_ordered(),
            shape_of(*old(tree)).has(value) == shape_of(*current).has(value),
            shape_of(*final(current)) == shape_of(*current).with_leaf(value) ==> shape_of(
                *final(tree),
            ) == shape_of(*old(tree)).with_leaf(value),
        decreases *current,
    {
        match current {
            None => {
                *current = Some(Box::new(BstNode::new(value)));
                return true;
            },
            Some(node) => {
                if node.value < value {
                    assert(!shape_of(node.left).has(value));
                    current = &mut node.right;
                } else if value < node.value {
                    assert(!shape_of(node.right).has(value));
                    current = &mut node.left;
                } else {
                    return false;
                }
            },
        }
    }
}

/// Finds the node that holds `value` and deletes it from the tree.
fn remove_at(tree: &mut BSTree, value: i64) -> (taken: Option<i64>)
    requires
        shape_of(*old(tree)).strictly_ordered(),
    ensures
        taken == if shape_of(*old(tree)).has(value) { Some(value) } else { None::<i64> },
        shape_of(*final(tree)) == shape_of(*old(tree)).without(value),
{
    let mut current = tree;
    loop
        invariant
            shape_of(*current).strictly_ordered(),
            shape_of(*old(tree)).has(value) == shape_of(*current).has(value),
            shape_of(*final(current)) == shape_of(*current).without(value) ==> shape_of(
                *final(tree),
            ) == shape_of(*old(tree)).without(value),
        ensures
            *current matches Some(node) && node.value == value,
        decreases *current,
    {
        match &*current {
            None => {
                return None;
            },
            Some(node) => {
                if node.value == value {
                    break ;
                }
            },
        }
        current =
        match current {
            Some(node) => {
                if node.value < value {
                    assert(!shape_of(node.left).has(value));
                    &mut node.right
                } else {
                    assert(!shape_of(node.right).has(value));
                    &mut node.left
                }
            },
            None => unreached(),
        };
    }
    Some(take_root(current))
}

/// Deletes the node in `slot` and gives back its key.
fn take_root(slot: &mut BSTree) -> (taken: i64)
    requires
        *old(slot) is Some,
        shape_of(*old(slot)).strictly_ordered(),
    ensures
        taken == old(slot).unwrap().value,
        shape_of(*final(slot)) == shape_of(*old(slot)).uprooted(),
{
    let mut target = slot.take().unwrap();
    proof {
        lemma_shape_of(*old(slot));
        lemma_shape_of(target.left);
        lemma_shape_of(target.right);
    }
    if zero_or_one_child(&target) {
        match target.left.take() {
            Some(left) => {
                *slot = Some(left);
            },
            None => {
                *slot = target.right.take();
            },
        }
        target.value
    } else {
        let taken = take_value_when_two_children(&mut target);
        proof {
            lemma_shape_of(Some(target));
        }
        *slot = Some(target);
        taken
    }
}

fn zero_or_one_child(target: &BstNode) -> (few: bool)
    ensures
        few == (target.left is None || target.right is None),
{
    target.left.is_none() || target.right.is_none()
}

/// Puts the successor's key into `target`, cuts the successor out and gives
/// back the key that `target` held.
fn take_value_when_two_children(target: &mut BstNode) -> (taken: i64)
    requires
        old(target).left is Some,
        old(target).right is Some,
        old(target).shape().strictly_ordered(),
    ensures
        taken == old(target).value,
        final(target).shape() == old(target).shape().uprooted(),
{
    if right_node_has_no_left_child(&target.right) {
        move_right_tree_up(target)
    } else {
        swap_with_leftmost_and_take(target)
    }
}

fn right_node_has_no_left_child(right_tree: &BSTree) -> (none: bool)
    requires
        *right_tree is Some,
    ensures
        none == (right_tree.unwrap().left is None),
{
    match right_tree {
        Some(right) => right.left.is_none(),
        None => unreached(),
    }
}

/// The right child is the successor: `target` takes its key and adopts its
/// right subtree.
fn move_right_tree_up(target: &mut BstNode) -> (taken: i64)
    requires
        old(target).left is Some,
        old(target).right is Some,
        old(target).right.unwrap().left is None,
    ensures
        taken == old(target).value,
        final(target).shape() == old(target).shape().uprooted(),
{
    proof {
        lemma_shape_of(target.left);
        lemma_shape_of(target.right);
        lemma_shape_of(target.right.unwrap().left);
    }
    let right = *target.right.take().unwrap();
    target.right = right.right;
    let taken = target.value;
    target.value = right.value;
    taken
}

/// The successor lies deeper: it is cut out of the right subtree and `target`
/// takes its key.
fn swap_with_leftmost_and_take(target: &mut BstNode) -> (taken: i64)
    requires
        old(target).left is Some,
        old(target).right is Some,
    ensures
        taken == old(target).value,
        final(target).shape() == old(target).shape().uprooted(),
{
    proof {
        lemma_shape_of(target.left);
        lemma_shape_of(target.right);
    }
    let successor = take_leftmost(&mut target.right);
    let taken = target.value;
    target.value = successor;
    taken
}

/// Cuts the leftmost node out of a tree; its right subtree takes its place.
fn take_leftmost(tree: &mut BSTree) -> (least: i64)
    requires
        *old(tree) is Some,
    ensures
        least == shape_of(*old(tree)).least(),
        shape_of(*final(tree)) == shape_of(*old(tree)).without_least(),
{
    let mut current = tree;
    loop
        invariant
            *current is Some,
            shape_of(*old(tree)).least() == shape_of(*current).least(),
            shape_of(*final(current)) == shape_of(*current).without_least() ==> shape_of(
                *final(tree),
            ) == shape_of(*old(tree)).without_least(),
        ensures
            *current matches Some(node) && node.left is None,
        decreases *current,
    {
        match &*current {
            None => {},
            Some(node) => {
                if node.left.is_none() {
                    break ;
                }
            },
        }
        current =
        match current {
            Some(node) => &mut node.left,
            None => unreached(),
        };
    }
    proof {
        lemma_shape_of(*current);
        lemma_shape_of(current.unwrap().left);
    }
    let leftmost = *current.take().unwrap();
    *current = leftmost.right;
    leftmost.value
}

/// A walk over a tree's keys in ascending order, with the ancestors still to
/// be visited kept on a stack.
#[derive(Debug)]
pub struct BstIter<'a> {
    prev_nodes: Vec<&'a BstNode>,
    current: &'a BSTree,
}

/// What the nodes on the stack still have to give, from the top of the stack
/// down: each its own key, then the keys to its right.
pub closed spec fn pending(stack: Seq<&BstNode>) -> Seq<i64>
    decreases stack.len(),
{
    if stack.len() == 0 {
        Seq::empty()
    } else {
        (seq![stack.last().value] + shape_of(stack.last().right).inorder()) + pending(
            stack.drop_last(),
        )
    }
}

impl<'a> BstIter<'a> {
    /// The keys that the walk has yet to give, in the order in which it gives them.
    pub closed spec fn remaining(self) -> Seq<i64> {
        shape_of(*self.current).inorder() + pending(self.prev_nodes@)
    }

    /// The next key of the walk, or `None` when all have been given.
    pub fn next(&mut self) -> (item: Option<&'a i64>)
        ensures
            old(self).remaining().len() == 0 ==> item is None && final(self).remaining()
                == old(self).remaining(),
            old(self).remaining().len() > 0 ==> item == Some(&old(self).remaining()[0])
                && final(self).remaining() == old(self).remaining().skip(1),
    {
        loop
            invariant
                self.remaining() == old(self).remaining(),
            decreases *self.current,
        {
            let ghost before = *self;
            let here: &'a BSTree = self.current;
            match here {
                None => {
                    match self.prev_nodes.pop() {
                        Some(prev_node) => {
                            self.current = &prev_node.right;
                            proof {
                                let stack = before.prev_nodes@;
                                lemma_shape_of(*before.current);
                                assert(self.prev_nodes@ == stack.drop_last());
                                assert(prev_node == stack.last());
                                assert(before.remaining() =~= pending(stack));
                                let tail = shape_of(prev_node.right).inorder() + pending(
                                    stack.drop_last(),
                                );
                                assert(pending(stack) =~= seq![prev_node.value] + tail);
                                assert((seq![prev_node.value] + tail).skip(1) =~= tail);
                            }
                            assert(self.remaining() =~= before.remaining().skip(1));
                            return Some(&prev_node.value);
                        },
                        None => {
                            return None;
                        },
                    }
                },
                Some(node) => {
                    if node.left.is_some() {
                        self.prev_nodes.push(&**node);
                        self.current = &node.left;
                        assert(self.prev_nodes@.drop_last() == before.prev_nodes@);
                        assert(self.remaining() =~= before.remaining());
                    } else {
                        self.current = &node.right;
                        proof {
                            lemma_shape_of(*before.current);
                            lemma_shape_of(node.left);
                            let tail = shape_of(node.right).inorder() + pending(
                                before.prev_nodes@,
                            );
                            assert(shape_of(node.left).inorder() =~= Seq::<i64>::empty());
                            assert(shape_of(*before.current).inorder() =~= shape_of(
                                node.left,
                            ).inorder().push(node.value) + shape_of(node.right).inorder());
                            assert(before.remaining() =~= seq![node.value] + tail);
                            assert((seq![node.value] + tail).skip(1) =~= tail);
                        }
                        assert(self.remaining() =~= before.remaining().skip(1));
                        return Some(&node.value);
                    }
                },
            }
        }
    }

    /// Runs the walk to its end and gives the keys it met.
    pub fn collect(self) -> (keys: Vec<i64>)
        ensures
            keys@ == self.remaining(),
    {
        let mut walk = self;
        let mut keys: Vec<i64> = Vec::new();
        loop
            invariant
                keys@ + walk.remaining() == self.remaining(),
            decreases walk.remaining().len(),
        {
            match walk.next() {
                Some(key) => {
                    keys.push(*key);
                },
                None => {
                    assert(keys@ + walk.remaining() =~= keys@);
                    return keys;
                },
            }
        }
    }
}

} // verus!
