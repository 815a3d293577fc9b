//! The height-balanced engine: a search tree in which every node records the
//! height of its subtree and is rebalanced by rotations after each change.

use crate::shape::{ascending, lemma_ascending_non_descending, two_to, Shape};
use crate::Tree;
use vstd::pervasive::unreached;
use vstd::prelude::*;

verus! {

pub type AvlTree = Option<Box<AvlNode>>;

#[derive(Debug, PartialEq)]
pub struct AvlNode {
    value: i64,
    height: usize,
    left: AvlTree,
    right: AvlTree,
}

/// The outline of the tree that hangs in a slot.
pub closed spec fn shape_of(tree: AvlTree) -> Shape
    decreases tree,
{
    match tree {
        None => Shape::Leaf,
        Some(node) => Shape::Fork {
            left: Box::new(shape_of(node.left)),
            value: node.value,
            right: Box::new(shape_of(node.right)),
        },
    }
}

/// The height that the root in a slot records; 0 for an empty slot.
pub closed spec fn recorded(tree: AvlTree) -> nat {
    match tree {
        None => 0,
        Some(node) => node.height as nat,
    }
}

/// Every node in the slot records the true height of its subtree, and no
/// height is beyond what a signed machine word holds.
pub closed spec fn heights_kept(tree: AvlTree) -> bool
    decreases tree,
{
    match tree {
        None => true,
        Some(node) => {
            &&& node.height == shape_of(tree).height()
            &&& node.height <= isize::MAX
            &&& heights_kept(node.left)
            &&& heights_kept(node.right)
        },
    }
}

/// What makes the tree in a slot a sound height-balanced search tree: strict
/// search-tree order, balance at every node, and true recorded heights.
pub closed spec fn valid(tree: AvlTree) -> bool {
    &&& shape_of(tree).strictly_ordered()
    &&& shape_of(tree).balanced()
    &&& heights_kept(tree)
}

/// How outline and recorded height of a slot follow from what hangs in it.
proof fn lemma_slot(tree: AvlTree)
    ensures
        tree is None <==> shape_of(tree) is Leaf,
        tree matches Some(node) ==> shape_of(tree) == node.shape() && recorded(tree)
            == node.height && (heights_kept(tree) <==> node.kept()),
        tree is None ==> recorded(tree) == 0 && heights_kept(tree),
        heights_kept(tree) ==> recorded(tree) == shape_of(tree).height() && recorded(tree)
            <= isize::MAX,
{
}

impl AvlNode {
    /// The outline of the tree below this node, the node included.
    pub closed spec fn shape(self) -> Shape {
        Shape::Fork {
            left: Box::new(shape_of(self.left)),
            value: self.value,
            right: Box::new(shape_of(self.right)),
        }
    }

    /// The height that this node records.
    pub closed spec fn recorded_height(self) -> nat {
        self.height as nat
    }

    /// The heights recorded in the two subtrees are true.
    pub closed spec fn children_kept(self) -> bool {
        heights_kept(self.left) && heights_kept(self.right)
    }

    /// The heights recorded in this node and below it are true.
    pub closed spec fn kept(self) -> bool {
        &&& self.children_kept()
        &&& self.height == self.shape().height()
        &&& self.height <= isize::MAX
    }

    /// A fresh node with `value`, no children and no height recorded yet.
    pub fn boxed(value: i64) -> (node: Box<Self>)
        ensures
            node.shape() == Shape::single(value),
            node.recorded_height() == 0,
            node.children_kept(),
    {
        proof {
            lemma_slot(None);
        }
        Box::new(Self { value, left: None, right: None, height: 0 })
    }

    /// Records the height anew from the heights that the children record.
    pub fn update_height(&mut self)
        requires
            old(self).children_kept(),
        ensures
            final(self).shape() == old(self).shape(),
            final(self).children_kept(),
            final(self).recorded_height() == final(self).shape().height(),
            final(self).shape().height() <= isize::MAX ==> final(self).kept(),
    {
        proof {
            lemma_slot(self.left);
            lemma_slot(self.right);
        }
        let left = self.left_height();
        let right = self.right_height();
        self.height = 1 + if left < right {
            right
        } else {
            left
        };
    }

    /// Restores the balance at this node where its subtrees differ in height
    /// by two: by one rotation, or by two where the taller child leans inward.
    pub fn rebalance(&mut self)
        requires
            old(self).kept(),
        ensures
            final(self).shape() == old(self).shape().rebalanced(),
            final(self).kept(),
    {
        proof {
            lemma_slot(self.left);
            lemma_slot(self.right);
            self.shape().lemma_rebalanced();
        }
        let factor = self.balance_factor();
        if factor == -2 {
            let right_node = self.right.as_mut().unwrap();
            proof {
                lemma_slot(right_node.left);
                lemma_slot(right_node.right);
                right_node.shape().lemma_rotated_height();
            }
            if right_node.balance_factor() == 1 {
                right_node.rotate_right();
            }
            proof {
                lemma_slot(self.right);
            }
            self.rotate_left();
        } else if factor == 2 {
            let left_node = self.left.as_mut().unwrap();
            proof {
                lemma_slot(left_node.left);
                lemma_slot(left_node.right);
                left_node.shape().lemma_rotated_height();
            }
            if left_node.balance_factor() == -1 {
                left_node.rotate_left();
            }
            proof {
                lemma_slot(self.left);
            }
            self.rotate_right();
        }
    }

    /// The height of the left subtree less the height of the right one.
    fn balance_factor(&self) -> (factor: isize)
        requires
            self.children_kept(),
        ensures
            factor == self.shape().tilt(),
    {
        proof {
            lemma_slot(self.left);
            lemma_slot(self.right);
        }
        self.left_height() as isize - self.right_height() as isize
    }

    fn left_height(&self) -> (height: usize)
        ensures
            height == recorded(self.left),
    {
        match &self.left {
            Some(node) => node.height,
            None => 0,
        }
    }

    fn right_height(&self) -> (height: usize)
        ensures
            height == recorded(self.right),
    {
        match &self.right {
            Some(node) => node.height,
            None => 0,
        }
    }

    /// Turns the tree to the left: the right child comes to the top, this
    /// node's contents go down to its left, and the child's left subtree
    /// changes over to them. The two nodes that moved record their heights
    /// anew, the lower one first.
    fn rotate_left(&mut self)
        requires
            old(self).children_kept(),
            old(self).shape().rotated_left().height() <= isize::MAX,
        ensures
            final(self).shape() == old(self).shape().rotated_left(),
            final(self).children_kept(),
            old(self).right is Some ==> final(self).kept(),
            old(self).right is None ==> *final(self) == *old(self),
    {
        if self.right.is_some() {
            proof {
                lemma_slot(self.left);
                lemma_slot(self.right);
                lemma_slot(self.right.unwrap().left);
                lemma_slot(self.right.unwrap().right);
            }
            let ghost turned = self.shape().rotated_left();
            let mut pivot = self.right.take().unwrap();
            self.right = pivot.left.take();
            proof {
                lemma_slot(None);
                Shape::lemma_fork(
                    shape_of(self.left),
                    self.value,
                    shape_of(self.right),
                );
                Shape::lemma_fork(self.shape(), pivot.value, shape_of(pivot.right));
            }
            self.update_height();
            std::mem::swap(self, &mut *pivot);
            proof {
                lemma_slot(Some(pivot));
            }
            self.left = Some(pivot);
            self.update_height();
            assert(self.shape() == turned);
        }
    }

    /// Turns the tree to the right, the mirror image of a turn to the left.
    fn rotate_right(&mut self)
        requires
            old(self).children_kept(),
            old(self).shape().rotated_right().height() <= isize::MAX,
        ensures
            final(self).shape() == old(self).shape().rotated_right(),
            final(self).children_kept(),
            old(self).left is Some ==> final(self).kept(),
            old(self).left is None ==> *final(self) == *old(self),
    {
        if self.left.is_some() {
            proof {
                lemma_slot(self.left);
                lemma_slot(self.right);
                lemma_slot(self.left.unwrap().left);
                lemma_slot(self.left.unwrap().right);
            }
            let ghost turned = self.shape().rotated_right();
            let mut pivot = self.left.take().unwrap();
            self.left = pivot.right.take();
            proof {
                lemma_slot(None);
                Shape::lemma_fork(
                    shape_of(self.left),
                    self.value,
                    shape_of(self.right),
                );
                Shape::lemma_fork(shape_of(pivot.left), pivot.value, self.shape());
            }
            self.update_height();
            std::mem::swap(self, &mut *pivot);
            proof {
                lemma_slot(Some(pivot));
            }
            self.right = Some(pivot);
            self.update_height();
            assert(self.shape() == turned);
        }
    }
}

impl Clone for AvlNode {
    fn clone(&self) -> (copy: Self)
        ensures
            copy == *self,
        decreases self,
    {
        AvlNode {
            value: self.value,
            height: self.height,
            left: clone_subtree(&self.left),
            right: clone_subtree(&self.right),
        }
    }
}

fn clone_subtree(tree: &AvlTree) -> (copy: AvlTree)
    ensures
        copy == *tree,
    decreases tree,
{
    match tree {
        None => None,
        Some(node) => Some(Box::new((**node).clone())),
    }
}

/// An ordered set of `i64` in a height-balanced search tree.
#[derive(Debug, PartialEq)]
pub struct AvlSet {
    root: AvlTree,
}

impl View for AvlSet {
    type V = Seq<i64>;

    /// The keys in ascending order.
    open spec fn view(&self) -> Seq<i64> {
        self.shape().inorder()
    }
}

impl AvlSet {
    /// The outline of the tree.
    pub closed spec fn shape(self) -> Shape {
        shape_of(self.root)
    }

    /// What holds of every set: its tree is in strict search-tree order and
    /// balanced at every node, and every node records its true height.
    #[verifier::type_invariant]
    pub closed spec fn wf(self) -> bool {
        valid(self.root)
    }

    /// Every sound set is in strict order and balanced at every node. Its
    /// listing ascends, and its height is at most about twice the logarithm
    /// of the number of its keys.
    pub proof fn lemma_wf(self)
        requires
            self.wf(),
        ensures
            self.shape().strictly_ordered(),
            self.shape().balanced(),
            self.shape().height() <= isize::MAX,
            ascending(self@),
            two_to(self.shape().height() / 2) <= self@.len() + 1,
    {
        lemma_slot(self.root);
        self.shape().lemma_strictly_ordered_ascending();
        self.shape().lemma_balanced_size();
        self.shape().lemma_inorder_bag();
    }

    /// The number of nodes on the longest way from the root down.
    pub fn height(&self) -> (height: usize)
        ensures
            height == self.shape().height(),
            self.shape().balanced(),
            two_to(height as nat / 2) <= self@.len() + 1,
    {
        proof {
            use_type_invariant(self);
            lemma_slot(self.root);
            self.lemma_wf();
        }
        match &self.root {
            Some(node) => node.height,
            None => 0,
        }
    }

    /// A walk over the keys in ascending order, from the smallest.
    pub fn iter(&self) -> (walk: AvlIter<'_>)
        ensures
            walk.remaining() == self@,
            ascending(walk.remaining()),
    {
        proof {
            use_type_invariant(self);
            self.shape().lemma_strictly_ordered_ascending();
        }
        AvlIter { prev_nodes: Vec::new(), current: &self.root }
    }
}

impl Default for AvlSet {
    fn default() -> (set: Self)
        ensures
            set@ == Seq::<i64>::empty(),
            set.shape() == Shape::Leaf,
    {
        AvlSet { root: None }
    }
}

impl Clone for AvlSet {
    fn clone(&self) -> (copy: Self)
        ensures
            copy == *self,
    {
        proof {
            use_type_invariant(self);
        }
        AvlSet { root: clone_subtree(&self.root) }
    }
}

impl Tree for AvlSet {
    open spec fn listing(&self) -> Seq<i64> {
        self@
    }

    /// A key is added unless the set holds it already. A tree as tall as a
    /// machine word can count takes no further key.
    open spec fn accepts(&self, value: i64) -> bool {
        !self@.contains(value) && self.shape().height() < isize::MAX
    }

    open spec fn yields(&self, value: i64) -> bool {
        self@.contains(value)
    }

    /// Adds `value` unless the set holds it already; says whether it was added.
    ///
    /// The search path for `value` is followed to the first empty place and a
    /// leaf is hung there. Then every node on the path, from the leaf's
    /// parent up to the root, records its height anew and is rebalanced.
    fn insert(&mut self, value: i64) -> (added: bool)
        ensures
            final(self)@.len() == old(self)@.len() + if added { 1int } else { 0int },
            added ==> forall|x: i64|
                #![trigger final(self)@.contains(x)]
                final(self)@.contains(x) <==> x == value || old(self)@.contains(x),
            final(self)@.contains(value) <==> old(self)@.contains(value) || old(
                self,
            ).shape().height() < isize::MAX,
            ascending(final(self)@),
            final(self).shape().balanced(),
            old(self).shape().height() <= final(self).shape().height(),
            final(self).shape().height() <= old(self).shape().height() + 1,
            old(self).shape().height() < isize::MAX ==> final(self).shape() == old(
                self,
            ).shape().with_leaf_balanced(value),
    {
        proof {
            use_type_invariant(&*self);
            lemma_slot(self.root);
            self.shape().lemma_inorder_bag();
        }
        if self.height() >= isize::MAX as usize {
            proof {
                self.shape().lemma_strictly_ordered_ascending();
                lemma_ascending_non_descending(self@);
            }
            return false;
        }
        let mut root: AvlTree = None;
        std::mem::swap(&mut self.root, &mut root);
        let added = insert_into(&mut root, value);
        self.root = root;
        proof {
            self.shape().lemma_inorder_bag();
            self.shape().lemma_strictly_ordered_ascending();
            lemma_ascending_non_descending(self@);
        }
        added
    }

    /// Takes `value` out of the set; gives it back if it was there.
    ///
    /// The node that holds `value` is deleted as in a plain search tree: with
    /// at most one child it gives way to that child, with two it takes the
    /// key of its successor, which is cut out instead. Then every node on
    /// the way back to the root, the lowest first, records its height anew
    /// and is rebalanced.
    fn remove(&mut self, value: i64) -> (taken: Option<i64>)
        ensures
            taken is None ==> final(self)@ == old(self)@,
            final(self)@.len() == old(self)@.len() - if taken is Some { 1int } else { 0int },
            forall|x: i64|
                #![trigger final(self)@.contains(x)]
                final(self)@.contains(x) <==> x != value && old(self)@.contains(x),
            ascending(final(self)@),
            final(self).shape().balanced(),
            final(self).shape().height() <= old(self).shape().height(),
            old(self).shape().height() <= final(self).shape().height() + 1,
            final(self).shape() == old(self).shape().without_balanced(value),
    {
        proof {
            use_type_invariant(&*self);
            lemma_slot(self.root);
            self.shape().lemma_inorder_bag();
            self.shape().lemma_strict_no_repeats();
        }
        let mut root: AvlTree = None;
        std::mem::swap(&mut self.root, &mut root);
        let taken = remove_from(&mut root, value);
        self.root = root;
        proof {
            self.shape().lemma_inorder_bag();
            self.shape().lemma_strictly_ordered_ascending();
            lemma_ascending_non_descending(self@);
        }
        taken
    }

    /// Whether the set holds `value`.
    fn search(&self, value: i64) -> (found: bool) {
        proof {
            use_type_invariant(self);
            self.shape().lemma_inorder_bag();
        }
        let mut current = &self.root;
        loop
            invariant
                shape_of(*current).strictly_ordered(),
                shape_of(self.root).has(value) == shape_of(*current).has(value),
                self@.contains(value) == shape_of(self.root).has(value),
            decreases *current,
        {
            match current {
                None => {
                    return false;
                },
                Some(node) => {
                    if node.value < value {
                        assert(!shape_of(node.left).has(value));
                        current = &node.right;
                    } else if value < node.value {
                        assert(!shape_of(node.right).has(value));
                        current = &node.left;
                    } else {
                        return true;
                    }
                },
            }
        }
    }
}

/// Adds `value` below a slot and rebalances the path on the way back.
fn insert_into(tree: &mut AvlTree, value: i64) -> (added: bool)
    requires
        valid(*old(tree)),
        shape_of(*old(tree)).height() < isize::MAX,
    ensures
        valid(*final(tree)),
        added == !shape_of(*old(tree)).has(value),
        added ==> shape_of(*final(tree)).bag() =~= shape_of(*old(tree)).bag().insert(value),
        added ==> shape_of(*final(tree)).size() == shape_of(*old(tree)).size() + 1,
        !added ==> shape_of(*final(tree)) == shape_of(*old(tree)),
        shape_of(*final(tree)) == shape_of(*old(tree)).with_leaf_balanced(value),
        shape_of(*old(tree)).height() <= shape_of(*final(tree)).height() <= shape_of(
            *old(tree),
        ).height() + 1,
    decreases *old(tree),
{
    proof {
        lemma_slot(*tree);
    }
    match tree {
        None => {
            let mut leaf = AvlNode::boxed(value);
            leaf.update_height();
            proof {
                lemma_slot(Some(leaf));
            }
            *tree = Some(leaf);
            true
        },
        Some(node) => {
            proof {
                lemma_slot(node.left);
                lemma_slot(node.right);
                Shape::lemma_fork(shape_of(node.left), node.value, shape_of(node.right));
                node.shape().lemma_rebalanced();
            }
            let added = if node.value < value {
                assert(!shape_of(node.left).has(value));
                insert_into(&mut node.right, value)
            } else if value < node.value {
                assert(!shape_of(node.right).has(value));
                insert_into(&mut node.left, value)
            } else {
                false
            };
            if added {
                proof {
                    lemma_slot(node.left);
                    lemma_slot(node.right);
                    Shape::lemma_fork(shape_of(node.left), node.value, shape_of(node.right));
                    node.shape().lemma_rebalanced();
                }
                node.update_height();
                node.rebalance();
            }
            proof {
                lemma_slot(Some(*node));
            }
            added
        },
    }
}

/// Deletes `value` below a slot and rebalances the path on the way back.
fn remove_from(tree: &mut AvlTree, value: i64) -> (taken: Option<i64>)
    requires
        valid(*old(tree)),
    ensures
        valid(*final(tree)),
        taken == if shape_of(*old(tree)).has(value) { Some(value) } else { None::<i64> },
        shape_of(*final(tree)).bag() =~= shape_of(*old(tree)).bag().remove(value),
        taken is Some ==> shape_of(*final(tree)).size() + 1 == shape_of(*old(tree)).size(),
        taken is None ==> shape_of(*final(tree)) == shape_of(*old(tree)),
        shape_of(*final(tree)) == shape_of(*old(tree)).without_balanced(value),
        shape_of(*final(tree)).height() <= shape_of(*old(tree)).height() <= shape_of(
            *final(tree),
        ).height() + 1,
    decreases *old(tree),
{
    proof {
        lemma_slot(*tree);
        shape_of(*tree).lemma_rebalanced();
    }
    let here = match &*tree {
        None => {
            return None;
        },
        Some(node) => node.value == value,
    };
    if here {
        Some(take_root(tree))
    } else {
        match tree {
            Some(node) => {
                proof {
                    lemma_slot(node.left);
                    lemma_slot(node.right);
                    Shape::lemma_fork(shape_of(node.left), node.value, shape_of(node.right));
                }
                let taken = if node.value < value {
                    assert(!shape_of(node.left).has(value));
                    remove_from(&mut node.right, value)
                } else {
                    assert(!shape_of(node.right).has(value));
                    remove_from(&mut node.left, value)
                };
                if taken.is_some() {
                    proof {
                        lemma_slot(node.left);
                        lemma_slot(node.right);
                        Shape::lemma_fork(
                            shape_of(node.left),
                            node.value,
                            shape_of(node.right),
                        );
                        node.shape().lemma_rebalanced();
                    }
                    node.update_height();
                    node.rebalance();
                }
                proof {
                    lemma_slot(Some(*node));
                }
                taken
            },
            None => unreached(),
        }
    }
}

/// Deletes the node in `slot`, rebalances what takes its place and gives
/// back the key that the node held.
fn take_root(slot: &mut AvlTree) -> (taken: i64)
    requires
        *old(slot) is Some,
        valid(*old(slot)),
    ensures
        valid(*final(slot)),
        taken == old(slot).unwrap().value,
        shape_of(*final(slot)) == shape_of(*old(slot)).uprooted_balanced(),
        shape_of(*final(slot)).bag() =~= shape_of(*old(slot)).bag().remove(taken),
        shape_of(*final(slot)).size() + 1 == shape_of(*old(slot)).size(),
        shape_of(*final(slot)).height() <= shape_of(*old(slot)).height() <= shape_of(
            *final(slot),
        ).height() + 1,
{
    let mut target = slot.take().unwrap();
    proof {
        lemma_slot(*old(slot));
        lemma_slot(target.left);
        lemma_slot(target.right);
        Shape::lemma_fork(shape_of(target.left), target.value, shape_of(target.right));
        target.shape().lemma_strict_no_repeats();
    }
    if has_zero_or_one_child(&target) {
        match target.left.take() {
            Some(left) => {
                *slot = Some(left);
            },
            None => {
                *slot = target.right.take();
            },
        }
        target.value
    } else {
        let taken = take_value_when_two_children(&mut target);
        proof {
            lemma_slot(Some(target));
        }
        *slot = Some(target);
        taken
    }
}

fn has_zero_or_one_child(target: &AvlNode) -> (few: bool)
    ensures
        few == (target.left is None || target.right is None),
{
    target.left.is_none() || target.right.is_none()
}

/// Puts the successor's key into `target`, cuts the successor out, rebalances
/// and gives back the key that `target` held.
fn take_value_when_two_children(target: &mut AvlNode) -> (taken: i64)
    requires
        old(target).left is Some,
        old(target).right is Some,
        old(target).kept(),
        old(target).shape().strictly_ordered(),
        old(target).shape().balanced(),
    ensures
        taken == old(target).value,
        final(target).shape() == old(target).shape().uprooted_balanced(),
        final(target).kept(),
        final(target).shape().strictly_ordered(),
        final(target).shape().balanced(),
        final(target).shape().bag() =~= old(target).shape().bag().remove(taken),
        final(target).shape().size() + 1 == old(target).shape().size(),
        final(target).shape().height() <= old(target).shape().height(),
        old(target).shape().height() <= final(target).shape().height() + 1,
{
    if tree_has_no_left_children(&target.right) {
        raise_right_tree(target)
    } else {
        swap_with_leftmost_node_from_right_tree(target)
    }
}

fn tree_has_no_left_children(tree: &AvlTree) -> (none: bool)
    requires
        *tree is Some,
    ensures
        none == (tree.unwrap().left is None),
{
    match tree {
        Some(node) => node.left.is_none(),
        None => unreached(),
    }
}

/// The right child is the successor: `target` takes its key and adopts its
/// right subtree.
fn raise_right_tree(target: &mut AvlNode) -> (taken: i64)
    requires
        old(target).left is Some,
        old(target).right is Some,
        old(target).right.unwrap().left is None,
        old(target).kept(),
        old(target).shape().strictly_ordered(),
        old(target).shape().balanced(),
    ensures
        taken == old(target).value,
        final(target).shape() == old(target).shape().uprooted_balanced(),
        final(target).kept(),
        final(target).shape().strictly_ordered(),
        final(target).shape().balanced(),
        final(target).shape().bag() =~= old(target).shape().bag().remove(taken),
        final(target).shape().size() + 1 == old(target).shape().size(),
        final(target).shape().height() <= old(target).shape().height(),
        old(target).shape().height() <= final(target).shape().height() + 1,
{
    proof {
        lemma_slot(target.left);
        lemma_slot(target.right);
        lemma_slot(target.right.unwrap().left);
        lemma_slot(target.right.unwrap().right);
        Shape::lemma_fork(shape_of(target.left), target.value, shape_of(target.right));
        Shape::lemma_fork(
            shape_of(target.right.unwrap().left),
            target.right.unwrap().value,
            shape_of(target.right.unwrap().right),
        );
        target.shape().lemma_strict_no_repeats();
        assert(shape_of(target.right).bag().count(target.right.unwrap().value) > 0);
    }
    let ghost low = shape_of(target.left);
    let ghost high = shape_of(target.right);
    let mut right_node = target.right.take().unwrap();
    let taken = target.value;
    target.value = right_node.value;
    target.right = right_node.right.take();
    proof {
        let successor = target.value;
        let rest = shape_of(target.right);
        Shape::lemma_fork(shape_of(target.left), target.value, shape_of(target.right));
        assert(high == Shape::Fork {
            left: Box::new(Shape::Leaf),
            value: successor,
            right: Box::new(rest),
        });
        assert(old(target).shape().strictly_ordered());
        assert(high.strictly_ordered());
        assert(rest.strictly_ordered());
        assert(high.bag().count(successor) > 0);
        assert(taken < successor);
        assert forall|x: i64| low.bag().count(x) > 0 implies x < successor by {
            assert(x < taken);
        }
        assert(low.bag().count(taken) == 0);
        assert(high.bag().count(taken) == 0);
        assert(target.shape().strictly_ordered());
        assert(target.shape().bag() =~= old(target).shape().bag().remove(taken));
        target.shape().lemma_rebalanced();
    }
    target.update_height();
    target.rebalance();
    taken
}

/// The successor lies deeper: it is cut out of the right subtree, which is
/// rebalanced on the way back, and `target` takes its key.
fn swap_with_leftmost_node_from_right_tree(target: &mut AvlNode) -> (taken: i64)
    requires
        old(target).left is Some,
        old(target).right is Some,
        old(target).kept(),
        old(target).shape().strictly_ordered(),
        old(target).shape().balanced(),
    ensures
        taken == old(target).value,
        final(target).shape() == old(target).shape().uprooted_balanced(),
        final(target).kept(),
        final(target).shape().strictly_ordered(),
        final(target).shape().balanced(),
        final(target).shape().bag() =~= old(target).shape().bag().remove(taken),
        final(target).shape().size() + 1 == old(target).shape().size(),
        final(target).shape().height() <= old(target).shape().height(),
        old(target).shape().height() <= final(target).shape().height() + 1,
{
    proof {
        lemma_slot(target.left);
        lemma_slot(target.right);
        Shape::lemma_fork(shape_of(target.left), target.value, shape_of(target.right));
        target.shape().lemma_strict_no_repeats();
    }
    let ghost low = shape_of(target.left);
    let ghost high = shape_of(target.right);
    let successor = take_leftmost(&mut target.right);
    let taken = target.value;
    target.value = successor;
    proof {
        lemma_slot(target.right);
        Shape::lemma_fork(shape_of(target.left), target.value, shape_of(target.right));
        assert(high.bag().count(successor) > 0);
        assert(taken < successor);
        assert forall|x: i64| low.bag().count(x) > 0 implies x < successor by {
            assert(x < taken);
        }
        assert(low.bag().count(taken) == 0);
        assert(high.bag().count(taken) == 0);
        assert(target.shape().strictly_ordered());
        assert(target.shape().bag() =~= old(target).shape().bag().remove(taken));
        target.shape().lemma_rebalanced();
    }
    target.update_height();
    target.rebalance();
    taken
}

/// Cuts the leftmost node out of a tree and rebalances every node passed on
/// the way back up.
fn take_leftmost(tree: &mut AvlTree) -> (least: i64)
    requires
        *old(tree) is Some,
        valid(*old(tree)),
    ensures
        valid(*final(tree)),
        least == shape_of(*old(tree)).least(),
        shape_of(*final(tree)) == shape_of(*old(tree)).without_least_balanced(),
        shape_of(*old(tree)).has(least),
        shape_of(*final(tree)).bag() =~= shape_of(*old(tree)).bag().remove(least),
        shape_of(*final(tree)).size() + 1 == shape_of(*old(tree)).size(),
        forall|x: i64| shape_of(*final(tree)).bag().count(x) > 0 ==> least < x,
        shape_of(*final(tree)).height() <= shape_of(*old(tree)).height() <= shape_of(
            *final(tree),
        ).height() + 1,
    decreases *old(tree),
{
    proof {
        lemma_slot(*tree);
        shape_of(*tree).lemma_strict_no_repeats();
    }
    if tree_has_no_left_children(&*tree) {
        let mut leftmost = tree.take().unwrap();
        proof {
            lemma_slot(leftmost.left);
            lemma_slot(leftmost.right);
            Shape::lemma_fork(shape_of(leftmost.left), leftmost.value, shape_of(leftmost.right));
        }
        *tree = leftmost.right.take();
        leftmost.value
    } else {
        match tree {
            Some(node) => {
                proof {
                    lemma_slot(node.left);
                    lemma_slot(node.right);
                    Shape::lemma_fork(shape_of(node.left), node.value, shape_of(node.right));
                }
                let least = take_leftmost(&mut node.left);
                proof {
                    lemma_slot(node.left);
                    Shape::lemma_fork(shape_of(node.left), node.value, shape_of(node.right));
                    node.shape().lemma_rebalanced();
                }
                node.update_height();
                node.rebalance();
                proof {
                    lemma_slot(Some(*node));
                }
                least
            },
            None => unreached(),
        }
    }
}

/// A walk over a tree's keys in ascending order, with the ancestors still to
/// be visited kept on a stack.
#[derive(Debug)]
pub struct AvlIter<'a> {
    prev_nodes: Vec<&'a AvlNode>,
    current: &'a AvlTree,
}

/// What the nodes on the stack still have to give, from the top of the stack
/// down: each its own key, then the keys to its right.
pub closed spec fn pending(stack: Seq<&AvlNode>) -> Seq<i64>
    decreases stack.len(),
{
    if stack.len() == 0 {
        Seq::empty()
    } else {
        (seq![stack.last().value] + shape_of(stack.last().right).inorder()) + pending(
            stack.drop_last(),
        )
    }
}

impl<'a> AvlIter<'a> {
    /// The keys that the walk has yet to give, in the order in which it gives them.
    pub closed spec fn remaining(self) -> Seq<i64> {
        shape_of(*self.current).inorder() + pending(self.prev_nodes@)
    }

    /// The next key of the walk, or `None` when all have been given.
    pub fn next(&mut self) -> (item: Option<&'a i64>)
        ensures
            old(self).remaining().len() == 0 ==> item is None && final(self).remaining()
                == old(self).remaining(),
            old(self).remaining().len() > 0 ==> item == Some(&old(self).remaining()[0])
                && final(self).remaining() == old(self).remaining().skip(1),
    {
        loop
            invariant
                self.remaining() == old(self).remaining(),
            decreases *self.current,
        {
            let ghost before = *self;
            let here: &'a AvlTree = self.current;
            match here {
                None => {
                    match self.prev_nodes.pop() {
                        Some(prev_node) => {
                            self.current = &prev_node.right;
                            proof {
                                let stack = before.prev_nodes@;
                                lemma_slot(*before.current);
                                assert(self.prev_nodes@ == stack.drop_last());
                                assert(prev_node == stack.last());
                                assert(before.remaining() =~= pending(stack));
                                let tail = shape_of(prev_node.right).inorder() + pending(
                                    stack.drop_last(),
                                );
                                assert(pending(stack) =~= seq![prev_node.value] + tail);
                                assert((seq![prev_node.value] + tail).skip(1) =~= tail);
                            }
                            assert(self.remaining() =~= before.remaining().skip(1));
                            return Some(&prev_node.value);
                        },
                        None => {
                            return None;
                        },
                    }
                },
                Some(node) => {
                    if node.left.is_some() {
                        self.prev_nodes.push(&**node);
                        self.current = &node.left;
                        assert(self.prev_nodes@.drop_last() == before.prev_nodes@);
                        assert(self.remaining() =~= before.remaining());
                    } else {
                        self.current = &node.right;
                        proof {
                            lemma_slot(*before.current);
                            lemma_slot(node.left);
                            let tail = shape_of(node.right).inorder() + pending(
                                before.prev_nodes@,
                            );
                            assert(shape_of(node.left).inorder() =~= Seq::<i64>::empty());
                            assert(shape_of(*before.current).inorder() =~= shape_of(
                                node.left,
                            ).inorder().push(node.value) + shape_of(node.right).inorder());
                            assert(before.remaining() =~= seq![node.value] + tail);
                            assert((seq![node.value] + tail).skip(1) =~= tail);
                        }
                        assert(self.remaining() =~= before.remaining().skip(1));
                        return Some(&node.value);
                    }
                },
            }
        }
    }

    /// Runs the walk to its end and gives the keys it met.
    pub fn collect(self) -> (keys: Vec<i64>)
        ensures
            keys@ == self.remaining(),
    {
        let mut walk = self;
        let mut keys: Vec<i64> = Vec::new();
        loop
            invariant
                keys@ + walk.remaining() == self.remaining(),
            decreases walk.remaining().len(),
        {
            match walk.next() {
                Some(key) => {
                    keys.push(*key);
                },
                None => {
                    assert(keys@ + walk.remaining() =~= keys@);
                    return keys;
                },
            }
        }
    }
}

} // verus!
