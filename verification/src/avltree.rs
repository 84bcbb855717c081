//! An AVL tree: a binary search tree that keeps the heights of the two
//! subtrees of every node within one of each other by rotations.

use vstd::prelude::*;
use crate::base::{contains_below, Linked, Tree, TreeNode};
use crate::key::OrderedKey;
use crate::shape::{above, below, Shape};

verus! {

/// A node of the AVL tree; it owns its two subtrees and stores its height.
#[derive(Debug)]
pub struct AVLTreeNode<T: OrderedKey> {
    pub data: T,
    _left: Option<Box<AVLTreeNode<T>>>,
    _right: Option<Box<AVLTreeNode<T>>>,
    _height: u32,
}

/// An AVL tree.
#[derive(Debug)]
pub struct AVLTree<T: OrderedKey> {
    _root: Option<Box<AVLTreeNode<T>>>,
}

/// The n-th Fibonacci number.
pub open spec fn fib(n: nat) -> nat
    decreases n,
{
    if n == 0 {
        0
    } else if n == 1 {
        1
    } else {
        fib((n - 1) as nat) + fib((n - 2) as nat)
    }
}

/// The Fibonacci numbers do not decrease.
pub proof fn lemma_fib_monotonic(a: nat, b: nat)
    requires
        a <= b,
    ensures
        fib(a) <= fib(b),
    decreases b,
{
    if a < b {
        if b >= 2 {
            lemma_fib_monotonic(a, (b - 1) as nat);
        }
    }
}

/// A tree whose subtrees differ in height by at most one at every node has
/// at least fib(h + 2) - 1 nodes, where h is its height.
pub proof fn lemma_balanced_size<A>(s: Shape<A>)
    requires
        s.height_balanced(),
    ensures
        fib(s.height() + 2) <= s.size() + 1,
    decreases s,
{
    match s {
        Shape::Nil => {
            reveal_with_fuel(fib, 3);
        },
        Shape::Node { left, item, right } => {
            lemma_balanced_size(*left);
            lemma_balanced_size(*right);
            let hl = left.height();
            let hr = right.height();
            if hl >= hr {
                lemma_fib_monotonic(hl + 1, hr + 2);
            } else {
                lemma_fib_monotonic(hr + 1, hl + 2);
            }
        },
    }
}

/// The tree `t`, whose subtrees differ in height by at most two, after the
/// rotations that level it when `k` has just been added below it: where
/// the left subtree is two higher, a rotation to the right if `k` went to
/// the left of the left child, else a rotation of the left child to the
/// left first; and the same with the sides exchanged.
pub open spec fn leveled_toward<T: OrderedKey>(t: Shape<T>, k: T) -> Shape<T> {
    if t.lhs().height() == t.rhs().height() + 2 {
        if k.rank() < t.lhs()->item.rank() {
            t.rotated_right()
        } else if t.lhs()->item.rank() < k.rank() {
            Shape::node(t.lhs().rotated_left(), t->item, t.rhs()).rotated_right()
        } else {
            t
        }
    } else if t.rhs().height() == t.lhs().height() + 2 {
        if k.rank() < t.rhs()->item.rank() {
            Shape::node(t.lhs(), t->item, t.rhs().rotated_right()).rotated_left()
        } else if t.rhs()->item.rank() < k.rank() {
            t.rotated_left()
        } else {
            t
        }
    } else {
        t
    }
}

/// The tree `s` with `k` added as a leaf where the order wants it, and
/// every node on the way back up leveled; `s` itself if `k` is a key of it.
pub open spec fn inserted<T: OrderedKey>(s: Shape<T>, k: T) -> Shape<T>
    decreases s,
{
    match s {
        Shape::Nil => Shape::node(Shape::Nil, k, Shape::Nil),
        Shape::Node { left, item, right } => leveled_toward(
            if k.rank() < item.rank() {
                Shape::node(inserted(*left, k), item, *right)
            } else if item.rank() < k.rank() {
                Shape::node(*left, item, inserted(*right, k))
            } else {
                s
            },
            k,
        ),
    }
}

/// The tree `t`, whose subtrees differ in height by at most two, after the
/// rotations that level it when a key has been removed below it: where the
/// left subtree is two higher, a rotation to the right if the left child is
/// not lower on its left side than on its right, else a rotation of the
/// left child to the left first; and the same with the sides exchanged.
pub open spec fn leveled<T: OrderedKey>(t: Shape<T>) -> Shape<T> {
    if t.lhs().height() == t.rhs().height() + 2 {
        if t.lhs().lhs().height() >= t.lhs().rhs().height() {
            t.rotated_right()
        } else {
            Shape::node(t.lhs().rotated_left(), t->item, t.rhs()).rotated_right()
        }
    } else if t.rhs().height() == t.lhs().height() + 2 {
        if t.rhs().rhs().height() >= t.rhs().lhs().height() {
            t.rotated_left()
        } else {
            Shape::node(t.lhs(), t->item, t.rhs().rotated_right()).rotated_left()
        }
    } else {
        t
    }
}

/// The tree `s` without the key `k`, and every node on the way back up
/// leveled: a node without children is dropped, a node with one child is
/// replaced by that child, and a node with two children takes the smallest
/// key of its right subtree, which is removed there.
pub open spec fn deleted<T: OrderedKey>(s: Shape<T>, k: T) -> Shape<T>
    decreases s,
{
    match s {
        Shape::Nil => Shape::Nil,
        Shape::Node { left, item, right } => if k.rank() < item.rank() {
            if *left is Nil {
                s
            } else {
                leveled(Shape::node(deleted(*left, k), item, *right))
            }
        } else if item.rank() < k.rank() {
            if *right is Nil {
                s
            } else {
                leveled(Shape::node(*left, item, deleted(*right, k)))
            }
        } else if *left is Nil && *right is Nil {
            Shape::Nil
        } else if *right is Nil {
            *left
        } else if *left is Nil {
            *right
        } else {
            let m = right.leftmost()->0;
            leveled(Shape::node(*left, m, deleted(*right, m)))
        },
    }
}

impl<T: OrderedKey> TreeNode<T> for AVLTreeNode<T> {
    type Link = Box<AVLTreeNode<T>>;

    closed spec fn left_link(&self) -> Option<Box<AVLTreeNode<T>>> {
        self._left
    }

    closed spec fn right_link(&self) -> Option<Box<AVLTreeNode<T>>> {
        self._right
    }

    closed spec fn data(&self) -> T {
        self.data
    }

    fn get_left(&self) -> (r: &Option<Box<AVLTreeNode<T>>>) {
        &self._left
    }

    fn get_right(&self) -> (r: &Option<Box<AVLTreeNode<T>>>) {
        &self._right
    }

    fn get_data(&self) -> (r: T) {
        self.data
    }
}

/// The larger of two heights.
fn larger(a: u32, b: u32) -> (m: u32)
    ensures
        m == (if a >= b {
            a
        } else {
            b
        }),
{
    if a >= b {
        a
    } else {
        b
    }
}

impl<T: OrderedKey> AVLTreeNode<T> {
    /// The tree below a link.
    pub closed spec fn shape_of(link: Option<Box<AVLTreeNode<T>>>) -> Shape<T>
        decreases link,
    {
        match link {
            None => Shape::Nil,
            Some(n) => Shape::node(Self::shape_of(n._left), n.data, Self::shape_of(n._right)),
        }
    }

    /// The tree that the node stands for, with its subtrees.
    pub closed spec fn shape(&self) -> Shape<T> {
        Shape::node(Self::shape_of(self._left), self.data, Self::shape_of(self._right))
    }

    /// The height stored at the node of a link; 0 for an absent link.
    spec fn stored_of(link: Option<Box<AVLTreeNode<T>>>) -> nat {
        match link {
            None => 0,
            Some(n) => n._height as nat,
        }
    }

    /// Every node below the link stores the height of its subtree.
    spec fn heights_of(link: Option<Box<AVLTreeNode<T>>>) -> bool
        decreases link,
    {
        match link {
            None => true,
            Some(n) => {
                &&& Self::heights_of(n._left)
                &&& Self::heights_of(n._right)
                &&& n._height as nat == Self::shape_of(link).height()
            },
        }
    }

    /// The tree below the link is a valid AVL tree.
    spec fn wf_of(link: Option<Box<AVLTreeNode<T>>>) -> bool {
        &&& Self::shape_of(link).is_search_tree()
        &&& Self::shape_of(link).height_balanced()
        &&& Self::heights_of(link)
    }

    /// The two subtrees of the node are valid, in order with the key of
    /// the node, and differ in height by at most two.
    spec fn nearly(&self) -> bool {
        &&& Self::shape_of(self._left).height_balanced()
        &&& Self::shape_of(self._right).height_balanced()
        &&& Self::heights_of(self._left)
        &&& Self::heights_of(self._right)
        &&& self.shape().is_search_tree()
        &&& Self::shape_of(self._left).height() <= Self::shape_of(self._right).height() + 2
        &&& Self::shape_of(self._right).height() <= Self::shape_of(self._left).height() + 2
        &&& self.shape().height() <= u32::MAX
    }

    /// How the height changes when `data` is added: it stays, or it grows
    /// by one, and then the side of the root where `data` went is the
    /// higher one.
    spec fn grown(old: Shape<T>, new: Shape<T>, data: T) -> bool {
        ||| new.height() == old.height()
        ||| {
            &&& new.height() == old.height() + 1
            &&& old is Node ==> {
                &&& new is Node
                &&& new->item == old->item
                &&& data.rank() < new->item.rank() ==> new.lhs().height() > new.rhs().height()
                &&& new->item.rank() < data.rank() ==> new.rhs().height() > new.lhs().height()
            }
        }
    }

    /// Makes a node without children.
    fn new(data: T) -> (r: Option<Box<AVLTreeNode<T>>>)
        ensures
            r is Some,
            Self::shape_of(r) == Shape::node(Shape::Nil, data, Shape::Nil),
            Self::wf_of(r),
    {
        let r = Some(Box::new(AVLTreeNode { data, _left: None, _right: None, _height: 1 }));
        proof {
            reveal_with_fuel(Shape::ordered_within, 2);
            reveal_with_fuel(Shape::height_balanced, 2);
            reveal_with_fuel(Shape::height, 2);
            reveal_with_fuel(AVLTreeNode::shape_of, 2);
            reveal_with_fuel(AVLTreeNode::heights_of, 2);
        }
        r
    }

    /// The stored height of the subtree behind a link; 0 for none.
    fn _get_height(node: &Option<Box<AVLTreeNode<T>>>) -> (h: u32)
        ensures
            h == Self::stored_of(*node),
    {
        match node {
            None => 0,
            Some(this_node) => this_node._height,
        }
    }

    /// The stored height of the left subtree.
    fn _get_left_height(node: &AVLTreeNode<T>) -> (h: u32)
        ensures
            h == Self::stored_of(node._left),
    {
        Self::_get_height(&node._left)
    }

    /// The stored height of the right subtree.
    fn _get_right_height(node: &AVLTreeNode<T>) -> (h: u32)
        ensures
            h == Self::stored_of(node._right),
    {
        Self::_get_height(&node._right)
    }

    /// Height of the left subtree less the height of the right subtree.
    fn _get_balance_factor(node: &AVLTreeNode<T>) -> (f: i64)
        ensures
            f == Self::stored_of(node._left) - Self::stored_of(node._right),
    {
        Self::_get_left_height(node) as i64 - Self::_get_right_height(node) as i64
    }

    /// The smallest key below the node.
    fn get_min(&self) -> (m: T)
        ensures
            Some(m) == self.shape().leftmost(),
        decreases self.shape().height(),
    {
        match &self._left {
            None => self.data,
            Some(left) => {
                assert(Self::shape_of(self._left) == left.shape());
                left.get_min()
            },
        }
    }

    /// A link whose nodes store their heights stores the height of the
    /// tree below it.
    proof fn lemma_stored(link: Option<Box<AVLTreeNode<T>>>)
        requires
            Self::heights_of(link),
        ensures
            Self::stored_of(link) == Self::shape_of(link).height(),
    {
    }

    /// Promotes the right child of `root`, which becomes its left child.
    fn _left_rotate(root: Box<AVLTreeNode<T>>) -> (r: Box<AVLTreeNode<T>>)
        requires
            root._right is Some,
            Self::heights_of(root._left),
            Self::heights_of(root._right),
            root.shape().rotated_left().height() <= u32::MAX,
        ensures
            r.shape() == root.shape().rotated_left(),
            Self::heights_of(Some(r)),
    {
        let mut root = root;
        let ghost a = Self::shape_of(root._left);
        let mut new_root = root._right.take().unwrap();
        let ghost b = Self::shape_of(new_root._left);
        let ghost c = Self::shape_of(new_root._right);
        proof {
            Self::lemma_stored(root._left);
            Self::lemma_stored(new_root._left);
            Self::lemma_stored(new_root._right);
            Shape::lemma_built(a, root.data, b);
            Shape::lemma_built(Shape::node(a, root.data, b), new_root.data, c);
        }
        root._right = new_root._left.take();
        root._height = larger(Self::_get_left_height(&root), Self::_get_right_height(&root)) + 1;
        assert(root.shape() == Shape::node(a, root.data, b));
        new_root._left = Some(root);
        assert(Self::shape_of(new_root._left) == root.shape());
        assert(Self::heights_of(new_root._left));
        new_root._height = larger(
            Self::_get_left_height(&new_root),
            Self::_get_right_height(&new_root),
        ) + 1;
        assert(new_root.shape() == Shape::node(Shape::node(a, root.data, b), new_root.data, c));
        new_root
    }

    /// Promotes the left child of `root`, which becomes its right child.
    fn _right_rotate(root: Box<AVLTreeNode<T>>) -> (r: Box<AVLTreeNode<T>>)
        requires
            root._left is Some,
            Self::heights_of(root._left),
            Self::heights_of(root._right),
            root.shape().rotated_right().height() <= u32::MAX,
        ensures
            r.shape() == root.shape().rotated_right(),
            Self::heights_of(Some(r)),
    {
        let mut root = root;
        let ghost c = Self::shape_of(root._right);
        let mut new_root = root._left.take().unwrap();
        let ghost a = Self::shape_of(new_root._left);
        let ghost b = Self::shape_of(new_root._right);
        proof {
            Self::lemma_stored(root._right);
            Self::lemma_stored(new_root._left);
            Self::lemma_stored(new_root._right);
            Shape::lemma_built(b, root.data, c);
            Shape::lemma_built(a, new_root.data, Shape::node(b, root.data, c));
        }
        root._left = new_root._right.take();
        root._height = larger(Self::_get_left_height(&root), Self::_get_right_height(&root)) + 1;
        assert(root.shape() == Shape::node(b, root.data, c));
        new_root._right = Some(root);
        assert(Self::shape_of(new_root._right) == root.shape());
        assert(Self::heights_of(new_root._right));
        new_root._height = larger(
            Self::_get_left_height(&new_root),
            Self::_get_right_height(&new_root),
        ) + 1;
        assert(new_root.shape() == Shape::node(a, new_root.data, Shape::node(b, root.data, c)));
        new_root
    }

    /// Rotates the left child to the left, then `root` to the right.
    fn _left_right_rotate(root: Box<AVLTreeNode<T>>) -> (r: Box<AVLTreeNode<T>>)
        requires
            root._left matches Some(l) && l._right is Some,
            Self::heights_of(root._left),
            Self::heights_of(root._right),
            Self::shape_of(root._left).rotated_left().height() <= u32::MAX,
            Shape::node(
                Self::shape_of(root._left).rotated_left(),
                root.data,
                Self::shape_of(root._right),
            ).rotated_right().height() <= u32::MAX,
        ensures
            r.shape() == Shape::node(
                Self::shape_of(root._left).rotated_left(),
                root.data,
                Self::shape_of(root._right),
            ).rotated_right(),
            Self::heights_of(Some(r)),
    {
        let ghost orig = root;
        let mut root = root;
        let left = root._left.take().unwrap();
        assert(Self::shape_of(orig._left) == left.shape()) by {
            assert(orig._left == Some(left));
        }
        let turned = Self::_left_rotate(left);
        root._left = Some(turned);
        assert(Self::shape_of(root._left) == turned.shape());
        Self::_right_rotate(root)
    }

    /// Rotates the right child to the right, then `root` to the left.
    fn _right_left_rotate(root: Box<AVLTreeNode<T>>) -> (r: Box<AVLTreeNode<T>>)
        requires
            root._right matches Some(l) && l._left is Some,
            Self::heights_of(root._left),
            Self::heights_of(root._right),
            Self::shape_of(root._right).rotated_right().height() <= u32::MAX,
            Shape::node(
                Self::shape_of(root._left),
                root.data,
                Self::shape_of(root._right).rotated_right(),
            ).rotated_left().height() <= u32::MAX,
        ensures
            r.shape() == Shape::node(
                Self::shape_of(root._left),
                root.data,
                Self::shape_of(root._right).rotated_right(),
            ).rotated_left(),
            Self::heights_of(Some(r)),
    {
        let ghost orig = root;
        let mut root = root;
        let right = root._right.take().unwrap();
        assert(Self::shape_of(orig._right) == right.shape()) by {
            assert(orig._right == Some(right));
        }
        let turned = Self::_right_rotate(right);
        root._right = Some(turned);
        assert(Self::shape_of(root._right) == turned.shape());
        Self::_left_rotate(root)
    }

    /// A node whose left subtree is two higher than the right one, and
    /// whose left child is not lower on its left side than on its right:
    /// one rotation to the right restores the balance.
    proof fn lemma_single_right(s: Shape<T>)
        requires
            s is Node,
            s.lhs() is Node,
            s.is_search_tree(),
            s.lhs().height_balanced(),
            s.rhs().height_balanced(),
            s.lhs().height() == s.rhs().height() + 2,
            s.lhs().lhs().height() >= s.lhs().rhs().height(),
        ensures
            s.rotated_right().is_search_tree(),
            s.rotated_right().height_balanced(),
            s.rotated_right().items() == s.items(),
            s.rotated_right().height() == (if s.lhs().lhs().height() == s.lhs().rhs().height() {
                s.lhs().height() + 1
            } else {
                s.lhs().height()
            }),
    {
        reveal_with_fuel(Shape::height, 3);
        reveal_with_fuel(Shape::height_balanced, 3);
        s.lemma_rotation_order(None, None);
        s.lemma_rotation_items();
    }

    /// The same with the sides exchanged.
    proof fn lemma_single_left(s: Shape<T>)
        requires
            s is Node,
            s.rhs() is Node,
            s.is_search_tree(),
            s.lhs().height_balanced(),
            s.rhs().height_balanced(),
            s.rhs().height() == s.lhs().height() + 2,
            s.rhs().rhs().height() >= s.rhs().lhs().height(),
        ensures
            s.rotated_left().is_search_tree(),
            s.rotated_left().height_balanced(),
            s.rotated_left().items() == s.items(),
            s.rotated_left().height() == (if s.rhs().rhs().height() == s.rhs().lhs().height() {
                s.rhs().height() + 1
            } else {
                s.rhs().height()
            }),
    {
        reveal_with_fuel(Shape::height, 3);
        reveal_with_fuel(Shape::height_balanced, 3);
        s.lemma_rotation_order(None, None);
        s.lemma_rotation_items();
    }

    /// A node whose left subtree is two higher than the right one, and
    /// whose left child is higher on its right side: a rotation of the
    /// left child to the left and one of the node to the right restore the
    /// balance.
    proof fn lemma_double_right(s: Shape<T>)
        requires
            s is Node,
            s.lhs() is Node,
            s.is_search_tree(),
            s.lhs().height_balanced(),
            s.rhs().height_balanced(),
            s.lhs().height() == s.rhs().height() + 2,
            s.lhs().lhs().height() < s.lhs().rhs().height(),
        ensures
            s.lhs().rhs() is Node,
            s.lhs().rotated_left().height() <= s.lhs().height() + 1,
            ({
                let t = Shape::node(s.lhs().rotated_left(), s->item, s.rhs()).rotated_right();
                &&& t.is_search_tree()
                &&& t.height_balanced()
                &&& t.items() == s.items()
                &&& t.height() == s.lhs().height()
            }),
    {
        reveal_with_fuel(Shape::height, 4);
        reveal_with_fuel(Shape::height_balanced, 4);
        let k = s->item;
        let l = s.lhs();
        let r = s.rhs();
        let m = Some(k.rank());
        s.lemma_node(None, None);
        l.lemma_rotation_order(None, m);
        l.lemma_rotation_items();
        let u = Shape::node(l.rotated_left(), k, r);
        Shape::lemma_built_order(l.rotated_left(), k, r, None, None);
        Shape::lemma_built(l.rotated_left(), k, r);
        u.lemma_rotation_order(None, None);
        u.lemma_rotation_items();
    }

    /// The same with the sides exchanged.
    proof fn lemma_double_left(s: Shape<T>)
        requires
            s is Node,
            s.rhs() is Node,
            s.is_search_tree(),
            s.lhs().height_balanced(),
            s.rhs().height_balanced(),
            s.rhs().height() == s.lhs().height() + 2,
            s.rhs().rhs().height() < s.rhs().lhs().height(),
        ensures
            s.rhs().lhs() is Node,
            s.rhs().rotated_right().height() <= s.rhs().height() + 1,
            ({
                let t = Shape::node(s.lhs(), s->item, s.rhs().rotated_right()).rotated_left();
                &&& t.is_search_tree()
                &&& t.height_balanced()
                &&& t.items() == s.items()
                &&& t.height() == s.rhs().height()
            }),
    {
        reveal_with_fuel(Shape::height, 4);
        reveal_with_fuel(Shape::height_balanced, 4);
        let k = s->item;
        let l = s.lhs();
        let r = s.rhs();
        let m = Some(k.rank());
        s.lemma_node(None, None);
        r.lemma_rotation_order(m, None);
        r.lemma_rotation_items();
        let u = Shape::node(l, k, r.rotated_right());
        Shape::lemma_built_order(l, k, r.rotated_right(), None, None);
        Shape::lemma_built(l, k, r.rotated_right());
        u.lemma_rotation_order(None, None);
        u.lemma_rotation_items();
    }

    /// Restores the balance of `node`, whose subtrees differ in height by
    /// at most two, after a key below it was removed, and stores its
    /// height.
    fn settle(node: Box<AVLTreeNode<T>>) -> (r: Box<AVLTreeNode<T>>)
        requires
            node.nearly(),
        ensures
            Self::wf_of(Some(r)),
            r.shape().items() == node.shape().items(),
            r.shape().height() == node.shape().height() || r.shape().height() + 1
                == node.shape().height(),
            node.shape().height_balanced() ==> r.shape() == node.shape(),
            r.shape() == leveled(node.shape()),
    {
        let ghost s = node.shape();
        let ghost ls = Self::shape_of(node._left);
        let ghost rs = Self::shape_of(node._right);
        proof {
            Self::lemma_stored(node._left);
            Self::lemma_stored(node._right);
            Shape::lemma_built(ls, node.data, rs);
        }
        let balance_factor: i64 = Self::_get_balance_factor(&node);
        let mut return_node: Box<AVLTreeNode<T>> = if balance_factor == 2 {
            let (left_child_height, right_child_height) = match &node._left {
                Some(left_child) => {
                    proof {
                        assert(ls == left_child.shape());
                        Self::lemma_stored(left_child._left);
                        Self::lemma_stored(left_child._right);
                    }
                    (Self::_get_left_height(left_child), Self::_get_right_height(left_child))
                },
                None => (0, 0),
            };
            if left_child_height >= right_child_height {
                proof {
                    Self::lemma_single_right(s);
                }
                Self::_right_rotate(node)
            } else {
                proof {
                    Self::lemma_double_right(s);
                }
                Self::_left_right_rotate(node)
            }
        } else if balance_factor == -2 {
            let (left_child_height, right_child_height) = match &node._right {
                Some(right_child) => {
                    proof {
                        assert(rs == right_child.shape());
                        Self::lemma_stored(right_child._left);
                        Self::lemma_stored(right_child._right);
                    }
                    (Self::_get_left_height(right_child), Self::_get_right_height(right_child))
                },
                None => (0, 0),
            };
            if right_child_height >= left_child_height {
                proof {
                    Self::lemma_single_left(s);
                }
                Self::_left_rotate(node)
            } else {
                proof {
                    Self::lemma_double_left(s);
                }
                Self::_right_left_rotate(node)
            }
        } else {
            node
        };
        proof {
            let ts = return_node.shape();
            Shape::lemma_built(
                Self::shape_of(return_node._left),
                return_node.data,
                Self::shape_of(return_node._right),
            );
            Self::lemma_stored(return_node._left);
            Self::lemma_stored(return_node._right);
            assert(ts.height_balanced());
            assert(ts.is_search_tree());
        }
        return_node._height = larger(
            Self::_get_left_height(&return_node),
            Self::_get_right_height(&return_node),
        ) + 1;
        return_node
    }

    /// Adds `data` below the link and restores the balance on the way back
    /// up: where a subtree has become two higher than its sibling, one or
    /// two rotations level them.
    fn insert(node: Option<Box<AVLTreeNode<T>>>, data: T) -> (r: Option<Box<AVLTreeNode<T>>>)
        requires
            Self::wf_of(node),
            Self::shape_of(node).height() < u32::MAX,
        ensures
            r is Some,
            Self::wf_of(r),
            Self::shape_of(r).items() == Self::shape_of(node).items().insert(data),
            Self::shape_of(node).items().contains(data) ==> Self::shape_of(r) == Self::shape_of(
                node,
            ),
            Self::grown(Self::shape_of(node), Self::shape_of(r), data),
            Self::shape_of(r) == inserted(Self::shape_of(node), data),
        decreases Self::shape_of(node).height(),
    {
        let ghost os = Self::shape_of(node);
        let return_node: Box<AVLTreeNode<T>> = match node {
            None => {
                let fresh = AVLTreeNode::new(data);
                assert(os.items().insert(data) =~= Self::shape_of(fresh).items()) by {
                    reveal_with_fuel(Shape::items, 2);
                }
                assert(Self::shape_of(fresh).height() == 1) by {
                    reveal_with_fuel(Shape::height, 2);
                }
                return fresh;
            },
            Some(this_node) => {
                let mut this_node = this_node;
                let ghost ls = Self::shape_of(this_node._left);
                let ghost rs = Self::shape_of(this_node._right);
                proof {
                    assert(os == this_node.shape());
                    os.lemma_node(None, None);
                    Shape::lemma_built(ls, this_node.data, rs);
                }
                let node_data: T = this_node.data;
                if data.precedes(&node_data) {
                    let left = this_node._left.take();
                    this_node._left = Self::insert(left, data);
                    proof {
                        let nl = Self::shape_of(this_node._left);
                        nl.lemma_rebound(None, None, None, Some(node_data.rank()));
                        Shape::lemma_built_order(nl, node_data, rs, None, None);
                        Shape::lemma_built(nl, node_data, rs);
                        assert(this_node.shape().items() =~= os.items().insert(data));
                    }
                } else if node_data.precedes(&data) {
                    let right = this_node._right.take();
                    this_node._right = Self::insert(right, data);
                    proof {
                        let nr = Self::shape_of(this_node._right);
                        nr.lemma_rebound(None, None, Some(node_data.rank()), None);
                        Shape::lemma_built_order(ls, node_data, nr, None, None);
                        Shape::lemma_built(ls, node_data, nr);
                        assert(this_node.shape().items() =~= os.items().insert(data));
                    }
                } else {
                    proof {
                        T::lemma_rank_injective(data, node_data);
                        assert(this_node.shape().items() =~= os.items().insert(data));
                    }
                }
                this_node
            },
        };
        let ghost ms = return_node.shape();
        let ghost ml = Self::shape_of(return_node._left);
        let ghost mr = Self::shape_of(return_node._right);
        proof {
            assert(inserted(os, data) == leveled_toward(ms, data));
            Self::lemma_stored(return_node._left);
            Self::lemma_stored(return_node._right);
            Shape::lemma_built(ml, return_node.data, mr);
            Shape::lemma_built(os.lhs(), return_node.data, os.rhs());
        }
        let balance_factor: i64 = Self::_get_balance_factor(&return_node);
        let mut new_return_node: Box<AVLTreeNode<T>> = if balance_factor == 2 {
            let new_data: T = match &return_node._left {
                Some(left) => {
                    proof {
                        assert(ml == left.shape());
                        Shape::lemma_built(
                            Self::shape_of(left._left),
                            left.data,
                            Self::shape_of(left._right),
                        );
                        Shape::lemma_built(os.lhs().lhs(), left.data, os.lhs().rhs());
                    }
                    left.data
                },
                None => data,
            };
            if data.precedes(&new_data) {
                proof {
                    Self::lemma_single_right(ms);
                }
                Self::_right_rotate(return_node)
            } else if new_data.precedes(&data) {
                proof {
                    Self::lemma_double_right(ms);
                }
                Self::_left_right_rotate(return_node)
            } else {
                proof {
                    T::lemma_rank_injective(data, new_data);
                    assert(os.lhs().items().contains(data));
                    assert(false);
                }
                return_node
            }
        } else if balance_factor == -2 {
            let new_data: T = match &return_node._right {
                Some(right) => {
                    proof {
                        assert(mr == right.shape());
                        Shape::lemma_built(
                            Self::shape_of(right._left),
                            right.data,
                            Self::shape_of(right._right),
                        );
                        Shape::lemma_built(os.rhs().lhs(), right.data, os.rhs().rhs());
                    }
                    right.data
                },
                None => data,
            };
            if data.precedes(&new_data) {
                proof {
                    Self::lemma_double_left(ms);
                }
                Self::_right_left_rotate(return_node)
            } else if new_data.precedes(&data) {
                proof {
                    Self::lemma_single_left(ms);
                }
                Self::_left_rotate(return_node)
            } else {
                proof {
                    T::lemma_rank_injective(data, new_data);
                    assert(os.rhs().items().contains(data));
                    assert(false);
                }
                return_node
            }
        } else {
            return_node
        };
        proof {
            Shape::lemma_built(
                Self::shape_of(new_return_node._left),
                new_return_node.data,
                Self::shape_of(new_return_node._right),
            );
            Self::lemma_stored(new_return_node._left);
            Self::lemma_stored(new_return_node._right);
            assert(new_return_node.shape().height_balanced());
            assert(new_return_node.shape().is_search_tree());
        }
        new_return_node._height = larger(
            Self::_get_left_height(&new_return_node),
            Self::_get_right_height(&new_return_node),
        ) + 1;
        let r = Some(new_return_node);
        assert(Self::shape_of(r) == new_return_node.shape());
        r
    }

    /// Removes `data` from below the link and restores the balance on the
    /// way back up. A node with two children takes the smallest key of its
    /// right subtree, which is removed there; a node with one child is
    /// replaced by it.
    #[verifier::rlimit(100)]
    fn delete(node: Option<Box<AVLTreeNode<T>>>, data: T) -> (r: Option<Box<AVLTreeNode<T>>>)
        requires
            Self::wf_of(node),
        ensures
            Self::wf_of(r),
            Self::shape_of(r).items() == Self::shape_of(node).items().remove(data),
            !Self::shape_of(node).items().contains(data) ==> Self::shape_of(r) == Self::shape_of(
                node,
            ),
            Self::shape_of(r).height() == Self::shape_of(node).height() || Self::shape_of(
                r,
            ).height() + 1 == Self::shape_of(node).height(),
            Self::shape_of(r) == deleted(Self::shape_of(node), data),
        decreases Self::shape_of(node).height(),
    {
        let ghost os = Self::shape_of(node);
        let return_node: Option<Box<AVLTreeNode<T>>> = match node {
            None => {
                assert(os.items().remove(data) =~= os.items());
                return None;
            },
            Some(this_node) => {
                let mut this_node = this_node;
                let ghost ls = Self::shape_of(this_node._left);
                let ghost rs = Self::shape_of(this_node._right);
                proof {
                    assert(os == this_node.shape());
                    os.lemma_node(None, None);
                    Shape::lemma_built(ls, this_node.data, rs);
                    ls.lemma_measures();
                    rs.lemma_measures();
                }
                let node_data: T = this_node.data;
                if data.precedes(&node_data) {
                    if this_node._left.is_none() {
                        assert(os.items().remove(data) =~= os.items());
                        let r = Some(this_node);
                        assert(Self::shape_of(r) == os);
                        return r;
                    }
                    let left = this_node._left.take();
                    this_node._left = Self::delete(left, data);
                    proof {
                        let nl = Self::shape_of(this_node._left);
                        nl.lemma_rebound(None, None, None, Some(node_data.rank()));
                        Shape::lemma_built_order(nl, node_data, rs, None, None);
                        Shape::lemma_built(nl, node_data, rs);
                        assert(this_node.shape().items() =~= os.items().remove(data));
                    }
                    Some(this_node)
                } else if node_data.precedes(&data) {
                    if this_node._right.is_none() {
                        assert(os.items().remove(data) =~= os.items());
                        let r = Some(this_node);
                        assert(Self::shape_of(r) == os);
                        return r;
                    }
                    let right = this_node._right.take();
                    this_node._right = Self::delete(right, data);
                    proof {
                        let nr = Self::shape_of(this_node._right);
                        nr.lemma_rebound(None, None, Some(node_data.rank()), None);
                        Shape::lemma_built_order(ls, node_data, nr, None, None);
                        Shape::lemma_built(ls, node_data, nr);
                        assert(this_node.shape().items() =~= os.items().remove(data));
                    }
                    Some(this_node)
                } else {
                    proof {
                        T::lemma_rank_injective(data, node_data);
                    }
                    if this_node._left.is_some() && this_node._right.is_some() {
                        let min_value: T = match &this_node._right {
                            Some(inner_right) => {
                                assert(rs == inner_right.shape());
                                inner_right.get_min()
                            },
                            None => node_data,
                        };
                        proof {
                            rs.lemma_extremes(Some(node_data.rank()), None);
                        }
                        this_node.data = min_value;
                        let right = this_node._right.take();
                        this_node._right = Self::delete(right, min_value);
                        proof {
                            let nr = Self::shape_of(this_node._right);
                            let mm = Some(min_value.rank());
                            assert forall|k: T| #[trigger] nr.items().contains(k) implies above(
                                mm,
                                k.rank(),
                            ) && below(None, k.rank()) by {
                                assert(rs.items().contains(k));
                                if k.rank() == min_value.rank() {
                                    T::lemma_rank_injective(k, min_value);
                                }
                            }
                            nr.lemma_rebound(None, None, mm, None);
                            ls.lemma_rebound(None, Some(node_data.rank()), None, mm);
                            Shape::lemma_built_order(ls, min_value, nr, None, None);
                            Shape::lemma_built(ls, min_value, nr);
                            assert(this_node.shape().items() =~= os.items().remove(data));
                        }
                        Some(this_node)
                    } else if this_node._left.is_some() {
                        proof {
                            assert(rs.items() =~= Set::<T>::empty());
                            assert(ls.items() =~= os.items().remove(data));
                        }
                        let r = this_node._left.take();
                        r
                    } else if this_node._right.is_some() {
                        proof {
                            assert(ls.items() =~= Set::<T>::empty());
                            assert(rs.items() =~= os.items().remove(data));
                        }
                        let r = this_node._right.take();
                        r
                    } else {
                        proof {
                            assert(ls.items() =~= Set::<T>::empty());
                            assert(rs.items() =~= Set::<T>::empty());
                            assert(Shape::<T>::Nil.items() =~= os.items().remove(data));
                        }
                        None
                    }
                }
            },
        };
        match return_node {
            None => None,
            Some(this_node) => {
                proof {
                    Shape::lemma_built(
                        Self::shape_of(this_node._left),
                        this_node.data,
                        Self::shape_of(this_node._right),
                    );
                    assert(Self::shape_of(return_node) == this_node.shape());
                }
                let settled = Self::settle(this_node);
                let r = Some(settled);
                assert(Self::shape_of(r) == settled.shape());
                r
            },
        }
    }
}

impl<T: OrderedKey> Linked<T, AVLTreeNode<T>> for AVLTree<T> {
    closed spec fn wf(&self) -> bool {
        AVLTreeNode::wf_of(self._root)
    }

    closed spec fn shape(&self) -> Shape<T> {
        AVLTreeNode::shape_of(self._root)
    }

    open spec fn has_room(&self) -> bool {
        self.shape().height() < u32::MAX
    }

    closed spec fn owns(&self, link: Box<AVLTreeNode<T>>) -> bool {
        true
    }

    closed spec fn node_at(&self, link: Box<AVLTreeNode<T>>) -> AVLTreeNode<T> {
        *link
    }

    closed spec fn rank(&self, link: Option<Box<AVLTreeNode<T>>>) -> nat {
        AVLTreeNode::shape_of(link).height()
    }

    closed spec fn subtree(&self, link: Option<Box<AVLTreeNode<T>>>) -> Shape<T> {
        AVLTreeNode::shape_of(link)
    }

    proof fn lemma_subtree(&self, link: Option<Box<AVLTreeNode<T>>>) {
    }

    proof fn lemma_search_tree(&self) {
    }

    fn room(&self) -> (r: bool) {
        proof {
            AVLTreeNode::lemma_stored(self._root);
        }
        AVLTreeNode::_get_height(&self._root) < u32::MAX
    }

    fn get_root(&self) -> (r: &Option<Box<AVLTreeNode<T>>>) {
        &self._root
    }

    fn node<'a>(&'a self, link: &'a Box<AVLTreeNode<T>>) -> (n: &'a AVLTreeNode<T>) {
        &**link
    }
}

impl<T: OrderedKey> Tree<T, AVLTreeNode<T>> for AVLTree<T> {
    /// Adds the key as a new leaf and rebalances the nodes above it.
    fn insert(&mut self, data: T) -> (inserted: bool)
        ensures
            final(self).shape().height_balanced(),
            inserted ==> final(self).shape() == self::inserted(old(self).shape(), data),
    {
        if contains_below(self, self.get_root(), data) {
            assert(self.shape().items() =~= old(self).shape().items().insert(data));
            false
        } else {
            match self._root.take() {
                Some(root) => {
                    self._root = AVLTreeNode::insert(Some(root), data);
                },
                None => {
                    self._root = AVLTreeNode::new(data);
                    assert(self.shape().items() =~= old(self).shape().items().insert(data)) by {
                        reveal_with_fuel(Shape::items, 2);
                    }
                },
            }
            true
        }
    }

    /// Removes the key and rebalances the nodes above its place.
    fn delete(&mut self, data: T) -> (removed: bool)
        ensures
            final(self).shape().height_balanced(),
            removed ==> final(self).shape() == deleted(old(self).shape(), data),
    {
        if !contains_below(self, self.get_root(), data) {
            assert(self.shape().items() =~= old(self).shape().items().remove(data));
            false
        } else {
            match self._root.take() {
                Some(root) => {
                    self._root = AVLTreeNode::delete(Some(root), data);
                },
                None => {},
            }
            true
        }
    }
}

impl<T: OrderedKey> AVLTree<T> {
    /// Makes a new empty tree.
    pub fn new() -> (tree: Self)
        ensures
            tree.wf(),
            tree.has_room(),
            tree.shape() is Nil,
    {
        AVLTree { _root: None }
    }

    /// Removes all keys.
    pub fn clear(&mut self)
        ensures
            final(self).wf(),
            final(self).has_room(),
            final(self).shape() is Nil,
    {
        *self = AVLTree::new();
    }

    /// In a valid tree the heights of the two subtrees of every node
    /// differ by at most one.
    pub proof fn lemma_balanced(&self)
        requires
            self.wf(),
        ensures
            self.shape().is_search_tree(),
            self.shape().height_balanced(),
    {
    }

    /// A valid tree of height h has at least fib(h + 2) - 1 nodes, where
    /// fib(1) and fib(2) are 1, which bounds its height by about 1.44 times
    /// the logarithm to base 2 of the number of nodes. Its height is 0
    /// exactly when it has no node.
    pub proof fn lemma_height_bound(&self)
        requires
            self.wf(),
        ensures
            fib(self.shape().height() + 2) <= self.shape().size() + 1,
            fib(1) == 1 && fib(2) == 1,
            self.shape().height() == 0 <==> self.shape().size() == 0,
    {
        reveal_with_fuel(fib, 3);
        self.shape().lemma_measures();
        lemma_balanced_size(self.shape());
    }

    /// A tree with fewer nodes than the largest height that can be stored
    /// has room for another key.
    pub proof fn lemma_room(&self)
        requires
            self.wf(),
            self.shape().size() < u32::MAX,
        ensures
            self.has_room(),
    {
        self.shape().lemma_measures();
    }
}

// The height of a tree after a key was added, and after it was removed again.
/// A tree with a root is built from its root and its two subtrees.
proof fn lemma_parts<A>(s: Shape<A>)
    requires
        s is Node,
    ensures
        s == Shape::node(s.lhs(), s->item, s.rhs()),
        s.height() == 1 + (if s.lhs().height() >= s.rhs().height() {
            s.lhs().height()
        } else {
            s.rhs().height()
        }),
        s.height_balanced() == (s.lhs().height_balanced() && s.rhs().height_balanced()
            && s.lhs().height() <= s.rhs().height() + 1 && s.rhs().height() <= s.lhs().height()
            + 1),
{
}

/// A key that is not in a tree is not at its root and in neither subtree.
proof fn lemma_absent<T: OrderedKey>(s: Shape<T>, k: T)
    requires
        s is Node,
        !s.items().contains(k),
    ensures
        k.rank() != s->item.rank(),
        !s.lhs().items().contains(k),
        !s.rhs().items().contains(k),
{
    if k.rank() == s->item.rank() {
        T::lemma_rank_injective(k, s->item);
    }
}

/// Removing a key that lies below a child of the root removes it below
/// that child and levels the root.
proof fn lemma_deleted_step<T: OrderedKey>(p: Shape<T>, y: T, q: Shape<T>, k: T)
    ensures
        k.rank() < y.rank() && p is Node ==> deleted(Shape::node(p, y, q), k) == leveled(
            Shape::node(deleted(p, k), y, q),
        ),
        y.rank() < k.rank() && q is Node ==> deleted(Shape::node(p, y, q), k) == leveled(
            Shape::node(p, y, deleted(q, k)),
        ),
{
}

/// Removing the root of three nodes leaves the smaller key with the larger
/// one above it.
proof fn lemma_deleted_between<T: OrderedKey>(y: T, k: T, x: T)
    ensures
        deleted(
            Shape::node(
                Shape::node(Shape::Nil, y, Shape::Nil),
                k,
                Shape::node(Shape::Nil, x, Shape::Nil),
            ),
            k,
        ) == Shape::node(Shape::node(Shape::Nil, y, Shape::Nil), x, Shape::Nil),
{
    reveal_with_fuel(deleted, 2);
    reveal_with_fuel(Shape::height, 3);
    reveal_with_fuel(Shape::leftmost, 2);
}

/// Adding `k` to `s` gives a balanced tree whose height is that of `s` or
/// one more; where it is more, no rotation took place at the root, and the
/// two subtrees of the root of `s` had the same height.
spec fn added_well<T: OrderedKey>(s: Shape<T>, k: T) -> bool {
    &&& inserted(s, k) is Node
    &&& inserted(s, k).height_balanced()
    &&& inserted(s, k).height() == s.height() || inserted(s, k).height() == s.height() + 1
    &&& s is Node && inserted(s, k).height() == s.height() + 1 ==> {
        &&& s.lhs().height() == s.rhs().height()
        &&& inserted(s, k) == (if k.rank() < s->item.rank() {
            Shape::node(inserted(s.lhs(), k), s->item, s.rhs())
        } else {
            Shape::node(s.lhs(), s->item, inserted(s.rhs(), k))
        })
    }
}

/// Adding a key keeps the balance where the key goes to the left
/// and the root needs no rotation; the tree that it gives.
proof fn lemma_inserted_left_still<T: OrderedKey>(s: Shape<T>, k: T)
    requires
        s is Node,
        s.height_balanced(),
        !s.items().contains(k),
        k.rank() < s->item.rank(),
        inserted(s.lhs(), k).height() != s.rhs().height() + 2,
    ensures
        added_well(s, k),
        inserted(s, k) == Shape::node(inserted(s.lhs(), k), s->item, s.rhs()),
    decreases s, 0nat,
{
    let l = s.lhs();
    let r = s.rhs();
    let x = s->item;
    lemma_parts(s);
    lemma_absent(s, k);
    lemma_inserted_height(l, k);
    let grown = inserted(l, k);
    let t = Shape::node(grown, x, r);
    Shape::lemma_built(t.lhs(), x, t.rhs());
    assert(inserted(s, k) == leveled_toward(t, k));
    assert(inserted(s, k) == t);
}

/// Adding a key keeps the balance where the key goes to the left
/// twice and the root is rotated once; the tree that it gives.
proof fn lemma_inserted_left_single<T: OrderedKey>(s: Shape<T>, k: T)
    requires
        s is Node,
        s.height_balanced(),
        !s.items().contains(k),
        k.rank() < s->item.rank(),
        inserted(s.lhs(), k).height() == s.rhs().height() + 2,
        k.rank() < s.lhs()->item.rank(),
    ensures
        added_well(s, k),
        inserted(s, k) == Shape::node(inserted(s.lhs().lhs(), k), s.lhs()->item, Shape::node(s.lhs().rhs(), s->item, s.rhs())),
    decreases s, 0nat,
{
    let l = s.lhs();
    let r = s.rhs();
    let x = s->item;
    lemma_parts(s);
    lemma_absent(s, k);
    lemma_inserted_height(l, k);
    let grown = inserted(l, k);
    let t = Shape::node(grown, x, r);
    Shape::lemma_built(t.lhs(), x, t.rhs());
    assert(inserted(s, k) == leveled_toward(t, k));
    lemma_parts(l);
    lemma_absent(l, k);
    lemma_parts(grown);
    let y = l->item;
    let a = inserted(l.lhs(), k);
    let b = l.rhs();
    let low = Shape::node(b, x, r);
    let res = Shape::node(a, y, low);
    assert(t.rotated_right() == res);
    Shape::lemma_built(low.lhs(), x, low.rhs());
    Shape::lemma_built(res.lhs(), y, res.rhs());
    assert(inserted(s, k) == res);
}

/// Adding a key keeps the balance where the key goes to the left
/// and then to the other side, and the root is rotated twice; the tree that it gives.
proof fn lemma_inserted_left_double<T: OrderedKey>(s: Shape<T>, k: T)
    requires
        s is Node,
        s.height_balanced(),
        !s.items().contains(k),
        k.rank() < s->item.rank(),
        inserted(s.lhs(), k).height() == s.rhs().height() + 2,
        !(k.rank() < s.lhs()->item.rank()),
    ensures
        added_well(s, k),
        inserted(s, k) == Shape::node(Shape::node(s.lhs().lhs(), s.lhs()->item, inserted(s.lhs().rhs(), k).lhs()), inserted(s.lhs().rhs(), k)->item, Shape::node(inserted(s.lhs().rhs(), k).rhs(), s->item, s.rhs())),
    decreases s, 0nat,
{
    let l = s.lhs();
    let r = s.rhs();
    let x = s->item;
    lemma_parts(s);
    lemma_absent(s, k);
    lemma_inserted_height(l, k);
    let grown = inserted(l, k);
    let t = Shape::node(grown, x, r);
    Shape::lemma_built(t.lhs(), x, t.rhs());
    assert(inserted(s, k) == leveled_toward(t, k));
    lemma_parts(l);
    lemma_absent(l, k);
    lemma_parts(grown);
    let y = l->item;
    let a = l.lhs();
    let m = inserted(l.rhs(), k);
    lemma_parts(m);
    let z = m->item;
    let near = Shape::node(a, y, m.lhs());
    let far = Shape::node(m.rhs(), x, r);
    let res = Shape::node(near, z, far);
    assert(grown.rotated_left() == Shape::node(near, z, m.rhs()));
    assert(Shape::node(grown.rotated_left(), x, r).rotated_right() == res);
    Shape::lemma_built(near.lhs(), y, near.rhs());
    Shape::lemma_built(far.lhs(), x, far.rhs());
    Shape::lemma_built(res.lhs(), z, res.rhs());
    assert(inserted(s, k) == res);
}

/// Adding a key keeps the balance where the key goes to the right
/// and the root needs no rotation; the tree that it gives.
proof fn lemma_inserted_right_still<T: OrderedKey>(s: Shape<T>, k: T)
    requires
        s is Node,
        s.height_balanced(),
        !s.items().contains(k),
        s->item.rank() < k.rank(),
        inserted(s.rhs(), k).height() != s.lhs().height() + 2,
    ensures
        added_well(s, k),
        inserted(s, k) == Shape::node(s.lhs(), s->item, inserted(s.rhs(), k)),
    decreases s, 0nat,
{
    let l = s.lhs();
    let r = s.rhs();
    let x = s->item;
    lemma_parts(s);
    lemma_absent(s, k);
    lemma_inserted_height(r, k);
    let grown = inserted(r, k);
    let t = Shape::node(l, x, grown);
    Shape::lemma_built(t.lhs(), x, t.rhs());
    assert(inserted(s, k) == leveled_toward(t, k));
    assert(inserted(s, k) == t);
}

/// Adding a key keeps the balance where the key goes to the right
/// twice and the root is rotated once; the tree that it gives.
proof fn lemma_inserted_right_single<T: OrderedKey>(s: Shape<T>, k: T)
    requires
        s is Node,
        s.height_balanced(),
        !s.items().contains(k),
        s->item.rank() < k.rank(),
        inserted(s.rhs(), k).height() == s.lhs().height() + 2,
        s.rhs()->item.rank() < k.rank(),
    ensures
        added_well(s, k),
        inserted(s, k) == Shape::node(Shape::node(s.lhs(), s->item, s.rhs().lhs()), s.rhs()->item, inserted(s.rhs().rhs(), k)),
    decreases s, 0nat,
{
    let l = s.lhs();
    let r = s.rhs();
    let x = s->item;
    lemma_parts(s);
    lemma_absent(s, k);
    lemma_inserted_height(r, k);
    let grown = inserted(r, k);
    let t = Shape::node(l, x, grown);
    Shape::lemma_built(t.lhs(), x, t.rhs());
    assert(inserted(s, k) == leveled_toward(t, k));
    lemma_parts(r);
    lemma_absent(r, k);
    lemma_parts(grown);
    let y = r->item;
    let a = inserted(r.rhs(), k);
    let b = r.lhs();
    let low = Shape::node(l, x, b);
    let res = Shape::node(low, y, a);
    assert(t.rotated_left() == res);
    Shape::lemma_built(low.lhs(), x, low.rhs());
    Shape::lemma_built(res.lhs(), y, res.rhs());
    assert(inserted(s, k) == res);
}

/// Adding a key keeps the balance where the key goes to the right
/// and then to the other side, and the root is rotated twice; the tree that it gives.
proof fn lemma_inserted_right_double<T: OrderedKey>(s: Shape<T>, k: T)
    requires
        s is Node,
        s.height_balanced(),
        !s.items().contains(k),
        s->item.rank() < k.rank(),
        inserted(s.rhs(), k).height() == s.lhs().height() + 2,
        !(s.rhs()->item.rank() < k.rank()),
    ensures
        added_well(s, k),
        inserted(s, k) == Shape::node(Shape::node(s.lhs(), s->item, inserted(s.rhs().lhs(), k).lhs()), inserted(s.rhs().lhs(), k)->item, Shape::node(inserted(s.rhs().lhs(), k).rhs(), s.rhs()->item, s.rhs().rhs())),
    decreases s, 0nat,
{
    let l = s.lhs();
    let r = s.rhs();
    let x = s->item;
    lemma_parts(s);
    lemma_absent(s, k);
    lemma_inserted_height(r, k);
    let grown = inserted(r, k);
    let t = Shape::node(l, x, grown);
    Shape::lemma_built(t.lhs(), x, t.rhs());
    assert(inserted(s, k) == leveled_toward(t, k));
    lemma_parts(r);
    lemma_absent(r, k);
    lemma_parts(grown);
    let y = r->item;
    let a = r.rhs();
    let m = inserted(r.lhs(), k);
    lemma_parts(m);
    let z = m->item;
    let near = Shape::node(m.rhs(), y, a);
    let far = Shape::node(l, x, m.lhs());
    let res = Shape::node(far, z, near);
    assert(grown.rotated_right() == Shape::node(m.lhs(), z, near));
    assert(Shape::node(l, x, grown.rotated_right()).rotated_left() == res);
    Shape::lemma_built(near.lhs(), y, near.rhs());
    Shape::lemma_built(far.lhs(), x, far.rhs());
    Shape::lemma_built(res.lhs(), z, res.rhs());
    assert(inserted(s, k) == res);
}

/// What adding a key that is not there does to a balanced tree: the tree
/// stays balanced, and its height stays or grows by one. Where it grows,
/// no rotation took place at the root, and the two subtrees of the root
/// had the same height before.
pub proof fn lemma_inserted_height<T: OrderedKey>(s: Shape<T>, k: T)
    requires
        s.height_balanced(),
        !s.items().contains(k),
    ensures
        inserted(s, k) is Node,
        inserted(s, k).height_balanced(),
        inserted(s, k).height() == s.height() || inserted(s, k).height() == s.height() + 1,
        s is Node && inserted(s, k).height() == s.height() + 1 ==> {
            &&& s.lhs().height() == s.rhs().height()
            &&& inserted(s, k) == (if k.rank() < s->item.rank() {
                Shape::node(inserted(s.lhs(), k), s->item, s.rhs())
            } else {
                Shape::node(s.lhs(), s->item, inserted(s.rhs(), k))
            })
        },
    decreases s, 1nat,
{
    match s {
        Shape::Nil => {
            Shape::lemma_built(Shape::Nil, k, Shape::Nil);
        },
        Shape::Node { left, item, right } => {
            lemma_absent(s, k);
            if k.rank() < item.rank() {
                if inserted(*left, k).height() != right.height() + 2 {
                    lemma_inserted_left_still(s, k);
                } else {
                    lemma_parts(*left);
                    lemma_absent(*left, k);
                    if k.rank() < left->item.rank() {
                        lemma_inserted_left_single(s, k);
                    } else {
                        lemma_inserted_left_double(s, k);
                    }
                }
            } else {
                if inserted(*right, k).height() != left.height() + 2 {
                    lemma_inserted_right_still(s, k);
                } else {
                    lemma_parts(*right);
                    lemma_absent(*right, k);
                    if right->item.rank() < k.rank() {
                        lemma_inserted_right_single(s, k);
                    } else {
                        lemma_inserted_right_double(s, k);
                    }
                }
            }
        },
    }
}

/// The height comes back where the key goes to the left
/// and the root needs no rotation.
proof fn lemma_round_trip_left_still<T: OrderedKey>(s: Shape<T>, k: T)
    requires
        s is Node,
        s.height_balanced(),
        !s.items().contains(k),
        k.rank() < s->item.rank(),
        inserted(s.lhs(), k).height() != s.rhs().height() + 2,
    ensures
        deleted(inserted(s, k), k).height() == s.height(),
    decreases s, 0nat,
{
    let l = s.lhs();
    let r = s.rhs();
    let x = s->item;
    lemma_parts(s);
    lemma_absent(s, k);
    lemma_inserted_height(l, k);
    lemma_inserted_left_still(s, k);
    lemma_round_trip_height(l, k);
    let grown = inserted(l, k);
    let t = Shape::node(grown, x, r);
    let t1 = Shape::node(deleted(grown, k), x, r);
    lemma_deleted_step(t.lhs(), x, t.rhs(), k);
    Shape::lemma_built(t1.lhs(), x, t1.rhs());
    assert(deleted(t, k) == t1);
}

/// The height comes back where the key goes to the left
/// twice and the root is rotated once.
proof fn lemma_round_trip_left_single<T: OrderedKey>(s: Shape<T>, k: T)
    requires
        s is Node,
        s.height_balanced(),
        !s.items().contains(k),
        k.rank() < s->item.rank(),
        inserted(s.lhs(), k).height() == s.rhs().height() + 2,
        k.rank() < s.lhs()->item.rank(),
    ensures
        deleted(inserted(s, k), k).height() == s.height(),
    decreases s, 0nat,
{
    let l = s.lhs();
    let r = s.rhs();
    let x = s->item;
    lemma_parts(s);
    lemma_absent(s, k);
    lemma_inserted_height(l, k);
    lemma_inserted_left_single(s, k);
    lemma_parts(l);
    lemma_absent(l, k);
    lemma_parts(inserted(l, k));
    let y = l->item;
    let a = inserted(l.lhs(), k);
    let b = l.rhs();
    lemma_inserted_height(l.lhs(), k);
    lemma_round_trip_height(l.lhs(), k);
    let low = Shape::node(b, x, r);
    let res = Shape::node(a, y, low);
    let res1 = Shape::node(deleted(a, k), y, low);
    lemma_deleted_step(res.lhs(), y, res.rhs(), k);
    Shape::lemma_built(low.lhs(), x, low.rhs());
    Shape::lemma_built(res1.lhs(), y, res1.rhs());
    assert(deleted(res, k) == res1);
}

/// The height comes back where the key goes to the left
/// and then to the other side, where nothing was.
proof fn lemma_round_trip_left_double_leaf<T: OrderedKey>(s: Shape<T>, k: T)
    requires
        s is Node,
        s.height_balanced(),
        !s.items().contains(k),
        k.rank() < s->item.rank(),
        inserted(s.lhs(), k).height() == s.rhs().height() + 2,
        !(k.rank() < s.lhs()->item.rank()),
        s.lhs().rhs() is Nil,
    ensures
        deleted(inserted(s, k), k).height() == s.height(),
    decreases s, 0nat,
{
    let l = s.lhs();
    let r = s.rhs();
    let x = s->item;
    lemma_parts(s);
    lemma_absent(s, k);
    lemma_inserted_height(l, k);
    lemma_inserted_left_double(s, k);
    lemma_parts(l);
    lemma_absent(l, k);
    lemma_parts(inserted(l, k));
    let y = l->item;
    let a = l.lhs();
    let m0 = l.rhs();
    let m = inserted(m0, k);
    lemma_inserted_height(m0, k);
    lemma_parts(m);
    let z = m->item;
    let near = Shape::node(a, y, m.lhs());
    let far = Shape::node(m.rhs(), x, r);
    let res = Shape::node(near, z, far);
    Shape::lemma_built(near.lhs(), y, near.rhs());
    Shape::lemma_built(far.lhs(), x, far.rhs());
    assert(z == k);
    assert(a is Nil && r is Nil);
    lemma_deleted_between(y, k, x);
}

/// The height comes back where the key goes to the left,
/// then to the other side, and then to the left.
proof fn lemma_round_trip_left_double_low<T: OrderedKey>(s: Shape<T>, k: T)
    requires
        s is Node,
        s.height_balanced(),
        !s.items().contains(k),
        k.rank() < s->item.rank(),
        inserted(s.lhs(), k).height() == s.rhs().height() + 2,
        !(k.rank() < s.lhs()->item.rank()),
        s.lhs().rhs() is Node,
        k.rank() < s.lhs().rhs()->item.rank(),
    ensures
        deleted(inserted(s, k), k).height() == s.height(),
    decreases s, 0nat,
{
    let l = s.lhs();
    let r = s.rhs();
    let x = s->item;
    lemma_parts(s);
    lemma_absent(s, k);
    lemma_inserted_height(l, k);
    lemma_inserted_left_double(s, k);
    lemma_parts(l);
    lemma_absent(l, k);
    lemma_parts(inserted(l, k));
    let y = l->item;
    let a = l.lhs();
    let m0 = l.rhs();
    let m = inserted(m0, k);
    lemma_inserted_height(m0, k);
    lemma_parts(m);
    let z = m->item;
    let near = Shape::node(a, y, m.lhs());
    let far = Shape::node(m.rhs(), x, r);
    let res = Shape::node(near, z, far);
    Shape::lemma_built(near.lhs(), y, near.rhs());
    Shape::lemma_built(far.lhs(), x, far.rhs());
    lemma_parts(m0);
    lemma_absent(m0, k);
    lemma_inserted_height(m0.lhs(), k);
    lemma_round_trip_height(m0.lhs(), k);
    let d1 = deleted(m.lhs(), k);
    let near1 = Shape::node(a, y, d1);
    lemma_deleted_step(near.lhs(), y, near.rhs(), k);
    Shape::lemma_built(near1.lhs(), y, near1.rhs());
    assert(deleted(near, k) == near1);
    let res1 = Shape::node(near1, z, far);
    lemma_deleted_step(res.lhs(), z, res.rhs(), k);
    Shape::lemma_built(res1.lhs(), z, res1.rhs());
    assert(deleted(res, k) == res1);
}

/// The height comes back where the key goes to the left,
/// then to the other side, and then to the right.
proof fn lemma_round_trip_left_double_high<T: OrderedKey>(s: Shape<T>, k: T)
    requires
        s is Node,
        s.height_balanced(),
        !s.items().contains(k),
        k.rank() < s->item.rank(),
        inserted(s.lhs(), k).height() == s.rhs().height() + 2,
        !(k.rank() < s.lhs()->item.rank()),
        s.lhs().rhs() is Node,
        s.lhs().rhs()->item.rank() < k.rank(),
    ensures
        deleted(inserted(s, k), k).height() == s.height(),
    decreases s, 0nat,
{
    let l = s.lhs();
    let r = s.rhs();
    let x = s->item;
    lemma_parts(s);
    lemma_absent(s, k);
    lemma_inserted_height(l, k);
    lemma_inserted_left_double(s, k);
    lemma_parts(l);
    lemma_absent(l, k);
    lemma_parts(inserted(l, k));
    let y = l->item;
    let a = l.lhs();
    let m0 = l.rhs();
    let m = inserted(m0, k);
    lemma_inserted_height(m0, k);
    lemma_parts(m);
    let z = m->item;
    let near = Shape::node(a, y, m.lhs());
    let far = Shape::node(m.rhs(), x, r);
    let res = Shape::node(near, z, far);
    Shape::lemma_built(near.lhs(), y, near.rhs());
    Shape::lemma_built(far.lhs(), x, far.rhs());
    lemma_parts(m0);
    lemma_absent(m0, k);
    lemma_inserted_height(m0.rhs(), k);
    lemma_round_trip_height(m0.rhs(), k);
    let d1 = deleted(m.rhs(), k);
    let far1 = Shape::node(d1, x, r);
    lemma_deleted_step(far.lhs(), x, far.rhs(), k);
    Shape::lemma_built(far1.lhs(), x, far1.rhs());
    assert(deleted(far, k) == far1);
    let res1 = Shape::node(near, z, far1);
    lemma_deleted_step(res.lhs(), z, res.rhs(), k);
    Shape::lemma_built(res1.lhs(), z, res1.rhs());
    assert(deleted(res, k) == res1);
}

/// The height comes back where the key goes to the right
/// and the root needs no rotation.
proof fn lemma_round_trip_right_still<T: OrderedKey>(s: Shape<T>, k: T)
    requires
        s is Node,
        s.height_balanced(),
        !s.items().contains(k),
        s->item.rank() < k.rank(),
        inserted(s.rhs(), k).height() != s.lhs().height() + 2,
    ensures
        deleted(inserted(s, k), k).height() == s.height(),
    decreases s, 0nat,
{
    let l = s.lhs();
    let r = s.rhs();
    let x = s->item;
    lemma_parts(s);
    lemma_absent(s, k);
    lemma_inserted_height(r, k);
    lemma_inserted_right_still(s, k);
    lemma_round_trip_height(r, k);
    let grown = inserted(r, k);
    let t = Shape::node(l, x, grown);
    let t1 = Shape::node(l, x, deleted(grown, k));
    lemma_deleted_step(t.lhs(), x, t.rhs(), k);
    Shape::lemma_built(t1.lhs(), x, t1.rhs());
    assert(deleted(t, k) == t1);
}

/// The height comes back where the key goes to the right
/// twice and the root is rotated once.
proof fn lemma_round_trip_right_single<T: OrderedKey>(s: Shape<T>, k: T)
    requires
        s is Node,
        s.height_balanced(),
        !s.items().contains(k),
        s->item.rank() < k.rank(),
        inserted(s.rhs(), k).height() == s.lhs().height() + 2,
        s.rhs()->item.rank() < k.rank(),
    ensures
        deleted(inserted(s, k), k).height() == s.height(),
    decreases s, 0nat,
{
    let l = s.lhs();
    let r = s.rhs();
    let x = s->item;
    lemma_parts(s);
    lemma_absent(s, k);
    lemma_inserted_height(r, k);
    lemma_inserted_right_single(s, k);
    lemma_parts(r);
    lemma_absent(r, k);
    lemma_parts(inserted(r, k));
    let y = r->item;
    let a = inserted(r.rhs(), k);
    let b = r.lhs();
    lemma_inserted_height(r.rhs(), k);
    lemma_round_trip_height(r.rhs(), k);
    let low = Shape::node(l, x, b);
    let res = Shape::node(low, y, a);
    let res1 = Shape::node(low, y, deleted(a, k));
    lemma_deleted_step(res.lhs(), y, res.rhs(), k);
    Shape::lemma_built(low.lhs(), x, low.rhs());
    Shape::lemma_built(res1.lhs(), y, res1.rhs());
    assert(deleted(res, k) == res1);
}

/// The height comes back where the key goes to the right
/// and then to the other side, where nothing was.
proof fn lemma_round_trip_right_double_leaf<T: OrderedKey>(s: Shape<T>, k: T)
    requires
        s is Node,
        s.height_balanced(),
        !s.items().contains(k),
        s->item.rank() < k.rank(),
        inserted(s.rhs(), k).height() == s.lhs().height() + 2,
        !(s.rhs()->item.rank() < k.rank()),
        s.rhs().lhs() is Nil,
    ensures
        deleted(inserted(s, k), k).height() == s.height(),
    decreases s, 0nat,
{
    let l = s.lhs();
    let r = s.rhs();
    let x = s->item;
    lemma_parts(s);
    lemma_absent(s, k);
    lemma_inserted_height(r, k);
    lemma_inserted_right_double(s, k);
    lemma_parts(r);
    lemma_absent(r, k);
    lemma_parts(inserted(r, k));
    let y = r->item;
    let a = r.rhs();
    let m0 = r.lhs();
    let m = inserted(m0, k);
    lemma_inserted_height(m0, k);
    lemma_parts(m);
    let z = m->item;
    let near = Shape::node(m.rhs(), y, a);
    let far = Shape::node(l, x, m.lhs());
    let res = Shape::node(far, z, near);
    Shape::lemma_built(near.lhs(), y, near.rhs());
    Shape::lemma_built(far.lhs(), x, far.rhs());
    assert(z == k);
    assert(a is Nil && l is Nil);
    lemma_deleted_between(x, k, y);
}

/// The height comes back where the key goes to the right,
/// then to the other side, and then to the left.
proof fn lemma_round_trip_right_double_low<T: OrderedKey>(s: Shape<T>, k: T)
    requires
        s is Node,
        s.height_balanced(),
        !s.items().contains(k),
        s->item.rank() < k.rank(),
        inserted(s.rhs(), k).height() == s.lhs().height() + 2,
        !(s.rhs()->item.rank() < k.rank()),
        s.rhs().lhs() is Node,
        k.rank() < s.rhs().lhs()->item.rank(),
    ensures
        deleted(inserted(s, k), k).height() == s.height(),
    decreases s, 0nat,
{
    let l = s.lhs();
    let r = s.rhs();
    let x = s->item;
    lemma_parts(s);
    lemma_absent(s, k);
    lemma_inserted_height(r, k);
    lemma_inserted_right_double(s, k);
    lemma_parts(r);
    lemma_absent(r, k);
    lemma_parts(inserted(r, k));
    let y = r->item;
    let a = r.rhs();
    let m0 = r.lhs();
    let m = inserted(m0, k);
    lemma_inserted_height(m0, k);
    lemma_parts(m);
    let z = m->item;
    let near = Shape::node(m.rhs(), y, a);
    let far = Shape::node(l, x, m.lhs());
    let res = Shape::node(far, z, near);
    Shape::lemma_built(near.lhs(), y, near.rhs());
    Shape::lemma_built(far.lhs(), x, far.rhs());
    lemma_parts(m0);
    lemma_absent(m0, k);
    lemma_inserted_height(m0.lhs(), k);
    lemma_round_trip_height(m0.lhs(), k);
    let d1 = deleted(m.lhs(), k);
    let far1 = Shape::node(l, x, d1);
    lemma_deleted_step(far.lhs(), x, far.rhs(), k);
    Shape::lemma_built(far1.lhs(), x, far1.rhs());
    assert(deleted(far, k) == far1);
    let res1 = Shape::node(far1, z, near);
    lemma_deleted_step(res.lhs(), z, res.rhs(), k);
    Shape::lemma_built(res1.lhs(), z, res1.rhs());
    assert(deleted(res, k) == res1);
}

/// The height comes back where the key goes to the right,
/// then to the other side, and then to the right.
proof fn lemma_round_trip_right_double_high<T: OrderedKey>(s: Shape<T>, k: T)
    requires
        s is Node,
        s.height_balanced(),
        !s.items().contains(k),
        s->item.rank() < k.rank(),
        inserted(s.rhs(), k).height() == s.lhs().height() + 2,
        !(s.rhs()->item.rank() < k.rank()),
        s.rhs().lhs() is Node,
        s.rhs().lhs()->item.rank() < k.rank(),
    ensures
        deleted(inserted(s, k), k).height() == s.height(),
    decreases s, 0nat,
{
    let l = s.lhs();
    let r = s.rhs();
    let x = s->item;
    lemma_parts(s);
    lemma_absent(s, k);
    lemma_inserted_height(r, k);
    lemma_inserted_right_double(s, k);
    lemma_parts(r);
    lemma_absent(r, k);
    lemma_parts(inserted(r, k));
    let y = r->item;
    let a = r.rhs();
    let m0 = r.lhs();
    let m = inserted(m0, k);
    lemma_inserted_height(m0, k);
    lemma_parts(m);
    let z = m->item;
    let near = Shape::node(m.rhs(), y, a);
    let far = Shape::node(l, x, m.lhs());
    let res = Shape::node(far, z, near);
    Shape::lemma_built(near.lhs(), y, near.rhs());
    Shape::lemma_built(far.lhs(), x, far.rhs());
    lemma_parts(m0);
    lemma_absent(m0, k);
    lemma_inserted_height(m0.rhs(), k);
    lemma_round_trip_height(m0.rhs(), k);
    let d1 = deleted(m.rhs(), k);
    let near1 = Shape::node(d1, y, a);
    lemma_deleted_step(near.lhs(), y, near.rhs(), k);
    Shape::lemma_built(near1.lhs(), y, near1.rhs());
    assert(deleted(near, k) == near1);
    let res1 = Shape::node(far, z, near1);
    lemma_deleted_step(res.lhs(), z, res.rhs(), k);
    Shape::lemma_built(res1.lhs(), z, res1.rhs());
    assert(deleted(res, k) == res1);
}

/// Adding a key that is not there to a balanced tree and removing it again
/// gives a tree of the height that the tree had before.
pub proof fn lemma_round_trip_height<T: OrderedKey>(s: Shape<T>, k: T)
    requires
        s.height_balanced(),
        !s.items().contains(k),
    ensures
        deleted(inserted(s, k), k).height() == s.height(),
    decreases s, 1nat,
{
    match s {
        Shape::Nil => {
            assert(deleted(Shape::node(Shape::Nil, k, Shape::Nil), k) == Shape::<T>::Nil);
        },
        Shape::Node { left, item, right } => {
            lemma_inserted_height(*left, k);
            lemma_inserted_height(*right, k);
            lemma_absent(s, k);
            if k.rank() < item.rank() {
                if inserted(*left, k).height() != right.height() + 2 {
                    lemma_round_trip_left_still(s, k);
                } else {
                    lemma_parts(*left);
                    lemma_absent(*left, k);
                    if k.rank() < left->item.rank() {
                        lemma_round_trip_left_single(s, k);
                    } else {
                        if left.rhs() is Nil {
                            lemma_round_trip_left_double_leaf(s, k);
                        } else {
                            lemma_absent(left.rhs(), k);
                            if k.rank() < left.rhs()->item.rank() {
                                lemma_round_trip_left_double_low(s, k);
                            } else {
                                lemma_round_trip_left_double_high(s, k);
                            }
                        }
                    }
                }
            } else {
                if inserted(*right, k).height() != left.height() + 2 {
                    lemma_round_trip_right_still(s, k);
                } else {
                    lemma_parts(*right);
                    lemma_absent(*right, k);
                    if right->item.rank() < k.rank() {
                        lemma_round_trip_right_single(s, k);
                    } else {
                        if right.lhs() is Nil {
                            lemma_round_trip_right_double_leaf(s, k);
                        } else {
                            lemma_absent(right.lhs(), k);
                            if k.rank() < right.lhs()->item.rank() {
                                lemma_round_trip_right_double_low(s, k);
                            } else {
                                lemma_round_trip_right_double_high(s, k);
                            }
                        }
                    }
                }
            }
        },
    }
}

} // verus!
