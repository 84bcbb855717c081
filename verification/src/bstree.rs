//! A binary search tree without rebalancing: the baseline of the variants.

use vstd::prelude::*;
use crate::base::{contains_below, Linked, Tree, TreeNode};
use crate::key::{same_key, OrderedKey};
use crate::shape::{above, below, Shape};

verus! {

/// A node of the binary search tree; it owns its two subtrees.
pub struct BSTreeNode<T: OrderedKey> {
    key: T,
    left: Option<Box<BSTreeNode<T>>>,
    right: Option<Box<BSTreeNode<T>>>,
}

/// A binary search tree.
pub struct BSTree<T: OrderedKey> {
    root: Option<Box<BSTreeNode<T>>>,
}

/// The tree `s` with `k` attached as a leaf where the order wants it; `s`
/// itself if `k` is a key of it.
pub open spec fn grafted<T: OrderedKey>(s: Shape<T>, k: T) -> Shape<T>
    decreases s,
{
    match s {
        Shape::Nil => Shape::node(Shape::Nil, k, Shape::Nil),
        Shape::Node { left, item, right } => if k.rank() < item.rank() {
            Shape::node(grafted(*left, k), item, *right)
        } else if item.rank() < k.rank() {
            Shape::node(*left, item, grafted(*right, k))
        } else {
            s
        },
    }
}

/// The tree `s` without the key `k`: a node without children is dropped,
/// a node with one child is replaced by that child, and a node with two
/// children takes the smallest key of its right subtree, which is removed
/// there.
pub open spec fn pruned<T: OrderedKey>(s: Shape<T>, k: T) -> Shape<T>
    decreases s,
{
    match s {
        Shape::Nil => Shape::Nil,
        Shape::Node { left, item, right } => if k.rank() < item.rank() {
            Shape::node(pruned(*left, k), item, *right)
        } else if item.rank() < k.rank() {
            Shape::node(*left, item, pruned(*right, k))
        } else if *left is Nil && *right is Nil {
            Shape::Nil
        } else if *left is Nil {
            *right
        } else if *right is Nil {
            *left
        } else {
            let m = right.leftmost()->0;
            Shape::node(*left, m, pruned(*right, m))
        },
    }
}

/// Removing a key that is not there leaves the tree as it is.
pub proof fn lemma_prune_absent<T: OrderedKey>(s: Shape<T>, k: T)
    requires
        s.is_search_tree(),
        !s.items().contains(k),
    ensures
        pruned(s, k) == s,
    decreases s,
{
    match s {
        Shape::Nil => {},
        Shape::Node { left, item, right } => {
            s.lemma_node(None, None);
            assert(s.items().contains(item));
            if k.rank() < item.rank() {
                lemma_prune_absent(*left, k);
            } else if item.rank() < k.rank() {
                lemma_prune_absent(*right, k);
            } else {
                T::lemma_rank_injective(k, item);
            }
        },
    }
}

/// Attaching a key that is not there and removing it again gives back the
/// very same tree, and so its height.
pub proof fn lemma_graft_prune<T: OrderedKey>(s: Shape<T>, k: T)
    requires
        s.is_search_tree(),
        !s.items().contains(k),
    ensures
        pruned(grafted(s, k), k) == s,
        pruned(grafted(s, k), k).height() == s.height(),
    decreases s,
{
    match s {
        Shape::Nil => {
            reveal_with_fuel(pruned, 2);
        },
        Shape::Node { left, item, right } => {
            s.lemma_node(None, None);
            assert(s.items().contains(item));
            if k.rank() < item.rank() {
                lemma_graft_prune(*left, k);
            } else if item.rank() < k.rank() {
                lemma_graft_prune(*right, k);
            } else {
                T::lemma_rank_injective(k, item);
            }
        },
    }
}

impl<T: OrderedKey> TreeNode<T> for BSTreeNode<T> {
    type Link = Box<BSTreeNode<T>>;

    closed spec fn left_link(&self) -> Option<Box<BSTreeNode<T>>> {
        self.left
    }

    closed spec fn right_link(&self) -> Option<Box<BSTreeNode<T>>> {
        self.right
    }

    closed spec fn data(&self) -> T {
        self.key
    }

    fn get_left(&self) -> (r: &Option<Box<BSTreeNode<T>>>) {
        &self.left
    }

    fn get_right(&self) -> (r: &Option<Box<BSTreeNode<T>>>) {
        &self.right
    }

    fn get_data(&self) -> (r: T) {
        self.key
    }
}

impl<T: OrderedKey> BSTreeNode<T> {
    /// The tree below a link.
    pub closed spec fn shape_of(link: Option<Box<BSTreeNode<T>>>) -> Shape<T>
        decreases link,
    {
        match link {
            None => Shape::Nil,
            Some(n) => Shape::Node {
                left: Box::new(Self::shape_of(n.left)),
                item: n.key,
                right: Box::new(Self::shape_of(n.right)),
            },
        }
    }

    /// The tree that the node stands for, with its subtrees.
    pub closed spec fn shape(&self) -> Shape<T> {
        Shape::Node {
            left: Box::new(Self::shape_of(self.left)),
            item: self.key,
            right: Box::new(Self::shape_of(self.right)),
        }
    }

    /// A node without children.
    fn new(value: T) -> (n: Self)
        ensures
            n.shape() == (Shape::Node {
                left: Box::new(Shape::Nil),
                item: value,
                right: Box::new(Shape::Nil),
            }),
    {
        BSTreeNode { key: value, left: None, right: None }
    }

    /// The smallest key below the node.
    fn get_min(&self) -> (m: T)
        ensures
            Some(m) == self.shape().leftmost(),
        decreases self.shape().height(),
    {
        match &self.left {
            None => self.key,
            Some(left) => left.get_min(),
        }
    }

    /// Adds `value` below the node, unless it is there already.
    fn insert(&mut self, value: T) -> (inserted: bool)
        requires
            old(self).shape().is_search_tree(),
        ensures
            final(self).shape().is_search_tree(),
            final(self).shape().items() == old(self).shape().items().insert(value),
            inserted == !old(self).shape().items().contains(value),
            !inserted ==> final(self).shape() == old(self).shape(),
            final(self).key == old(self).key,
            final(self).shape() == grafted(old(self).shape(), value),
        decreases old(self).shape().height(),
    {
        let ghost ls = Self::shape_of(self.left);
        let ghost rs = Self::shape_of(self.right);
        let ghost m = Some(self.key.rank());
        proof {
            ls.lemma_items_within(None, m);
            rs.lemma_items_within(m, None);
            ls.lemma_widen(None, m, None, None);
            rs.lemma_widen(m, None, None, None);
            assert(old(self).shape().items() == ls.items().union(rs.items()).insert(self.key));
        }
        if same_key(&self.key, &value) {
            assert(self.shape().items() =~= old(self).shape().items().insert(value));
            return false;
        }
        let inserted;
        if value.precedes(&self.key) {
            match self.left.take() {
                Some(mut node) => {
                    assert(ls == node.shape());
                    inserted = node.insert(value);
                    self.left = Some(node);
                    assert(Self::shape_of(self.left) == node.shape());
                },
                None => {
                    let leaf = BSTreeNode::new(value);
                    assert(leaf.shape().is_search_tree()) by {
                        reveal_with_fuel(Shape::ordered_within, 2);
                    }
                    self.left = Some(Box::new(leaf));
                    assert(Self::shape_of(self.left) == leaf.shape());
                    assert(leaf.shape() == grafted(ls, value));
                    assert(ls.items() =~= Set::<T>::empty());
                    assert(leaf.shape().items() =~= ls.items().insert(value)) by {
                        reveal_with_fuel(Shape::items, 2);
                    }
                    inserted = true;
                },
            }
            proof {
                let nl = Self::shape_of(self.left);
                assert(nl.items() =~= ls.items().insert(value));
                nl.lemma_rebound(None, None, None, m);
                assert(self.shape().items() == nl.items().union(rs.items()).insert(self.key));
                assert(self.shape().items() =~= old(self).shape().items().insert(value));
                assert(inserted == !old(self).shape().items().contains(value));
            }
        } else {
            match self.right.take() {
                Some(mut node) => {
                    assert(rs == node.shape());
                    inserted = node.insert(value);
                    self.right = Some(node);
                    assert(Self::shape_of(self.right) == node.shape());
                },
                None => {
                    let leaf = BSTreeNode::new(value);
                    assert(leaf.shape().is_search_tree()) by {
                        reveal_with_fuel(Shape::ordered_within, 2);
                    }
                    self.right = Some(Box::new(leaf));
                    assert(Self::shape_of(self.right) == leaf.shape());
                    assert(leaf.shape() == grafted(rs, value));
                    assert(rs.items() =~= Set::<T>::empty());
                    assert(leaf.shape().items() =~= rs.items().insert(value)) by {
                        reveal_with_fuel(Shape::items, 2);
                    }
                    inserted = true;
                },
            }
            proof {
                let nr = Self::shape_of(self.right);
                assert(nr.items() =~= rs.items().insert(value));
                nr.lemma_rebound(None, None, m, None);
                assert(self.shape().items() == ls.items().union(nr.items()).insert(self.key));
                assert(self.shape().items() =~= old(self).shape().items().insert(value));
                assert(inserted == !old(self).shape().items().contains(value));
            }
        }
        inserted
    }

    /// Removes `value`, which is not the key of this node, from below it.
    fn delete(&mut self, value: T)
        requires
            old(self).shape().is_search_tree(),
            value != old(self).key,
        ensures
            final(self).shape().is_search_tree(),
            final(self).shape().items() == old(self).shape().items().remove(value),
            final(self).key == old(self).key,
            !old(self).shape().items().contains(value) ==> final(self).shape() == old(self).shape(),
            final(self).shape() == pruned(old(self).shape(), value),
        decreases old(self).shape().height(), 1nat,
    {
        if value.precedes(&self.key) {
            self._delete_left(value)
        } else {
            proof {
                if !(self.key.rank() < value.rank()) {
                    T::lemma_rank_injective(value, self.key);
                }
            }
            self._delete_right(value)
        }
    }

    /// Removes the key of `node`, which has two children: the node takes
    /// the smallest key of its right subtree, which is removed there.
    fn _delete_node_have_two_children(node: &mut BSTreeNode<T>)
        requires
            old(node).shape().is_search_tree(),
            old(node).left is Some,
            old(node).right is Some,
        ensures
            final(node).shape().is_search_tree(),
            final(node).shape().items() == old(node).shape().items().remove(old(node).key),
            final(node).shape() == pruned(old(node).shape(), old(node).key),
        decreases old(node).shape().height(), 2nat,
    {
        let ghost os = node.shape();
        let ghost ls = Self::shape_of(node.left);
        let ghost rs = Self::shape_of(node.right);
        let ghost m = Some(node.key.rank());
        let right_min = match &node.right {
            Some(right) => {
                assert(rs == right.shape());
                right.get_min()
            },
            None => node.key,
        };
        proof {
            os.lemma_node(None, None);
            rs.lemma_extremes(m, None);
        }
        node.delete(right_min);
        let ghost ms = node.shape();
        let ghost nl = Self::shape_of(node.left);
        let ghost nr = Self::shape_of(node.right);
        proof {
            ms.lemma_node(None, None);
            assert(ms.items() == os.items().remove(right_min));
            assert forall|x: T| nl.items().contains(x) <==> ls.items().contains(x) by {
                if nl.items().contains(x) {
                    assert(ms.items().contains(x));
                    assert(os.items().contains(x));
                }
                if ls.items().contains(x) {
                    assert(os.items().contains(x));
                    assert(ms.items().contains(x));
                }
            }
            assert forall|x: T|
                nr.items().contains(x) <==> rs.items().remove(right_min).contains(x) by {
                if nr.items().contains(x) {
                    assert(ms.items().contains(x));
                    assert(os.items().contains(x));
                }
                if rs.items().contains(x) && x != right_min {
                    assert(os.items().contains(x));
                    assert(ms.items().contains(x));
                }
            }
            assert(nl.items() =~= ls.items());
            assert(nr.items() =~= rs.items().remove(right_min));
        }
        node.key = right_min;
        proof {
            let m2 = Some(right_min.rank());
            assert forall|k: T| #[trigger] nr.items().contains(k) implies above(m2, k.rank())
                && below(None, k.rank()) by {
                assert(rs.items().contains(k));
                if k.rank() == right_min.rank() {
                    T::lemma_rank_injective(k, right_min);
                }
            }
            nl.lemma_rebound(None, m, None, m2);
            nr.lemma_rebound(m, None, m2, None);
            assert(node.shape().items() == nl.items().union(nr.items()).insert(right_min));
            assert(node.shape().items() =~= os.items().remove(old(node).key));
        }
    }

    /// Removes `value`, which is larger than the key of this node, from
    /// the right subtree.
    fn _delete_right(&mut self, value: T)
        requires
            old(self).shape().is_search_tree(),
            old(self).key.rank() < value.rank(),
        ensures
            final(self).shape().is_search_tree(),
            final(self).shape().items() == old(self).shape().items().remove(value),
            final(self).key == old(self).key,
            !old(self).shape().items().contains(value) ==> final(self).shape() == old(self).shape(),
            final(self).shape() == pruned(old(self).shape(), value),
        decreases old(self).shape().height(), 0nat,
    {
        let ghost os = self.shape();
        let ghost ls = Self::shape_of(self.left);
        let ghost rs = Self::shape_of(self.right);
        let ghost m = Some(self.key.rank());
        proof {
            os.lemma_node(None, None);
        }
        match self.right.take() {
            Some(mut right) => {
                let ghost rl = Self::shape_of(right.left);
                let ghost rr = Self::shape_of(right.right);
                proof {
                    assert(rs == right.shape());
                    rs.lemma_node(m, None);
                }
                if same_key(&right.key, &value) {
                    if right.left.is_none() && right.right.is_none() {
                        self.right = None;
                    } else if right.left.is_none() && !right.right.is_none() {
                        self.right = right.right;
                    } else if !right.left.is_none() && right.right.is_none() {
                        self.right = right.left;
                    } else {
                        Self::_delete_node_have_two_children(&mut right);
                        self.right = Some(right);
                        assert(Self::shape_of(self.right) == right.shape());
                    }
                } else {
                    right.delete(value);
                    self.right = Some(right);
                    assert(Self::shape_of(self.right) == right.shape());
                }
                proof {
                    let nr = Self::shape_of(self.right);
                    assert(nr == pruned(rs, value));
                    assert(rl.items() =~= Set::<T>::empty() <== rl is Nil);
                    assert(rr.items() =~= Set::<T>::empty() <== rr is Nil);
                    assert(nr.is_search_tree());
                    assert(nr.items() =~= rs.items().remove(value));
                    nr.lemma_rebound(None, None, m, None);
                    assert(self.shape().items() == ls.items().union(nr.items()).insert(self.key));
                    assert(self.shape().items() =~= os.items().remove(value));
                }
            },
            None => {
                assert(rs.items() =~= Set::<T>::empty());
                assert(pruned(rs, value) == rs);
                assert(self.shape().items() =~= os.items().remove(value));
            },
        }
    }

    /// Removes `value`, which is smaller than the key of this node, from
    /// the left subtree.
    fn _delete_left(&mut self, value: T)
        requires
            old(self).shape().is_search_tree(),
            value.rank() < old(self).key.rank(),
        ensures
            final(self).shape().is_search_tree(),
            final(self).shape().items() == old(self).shape().items().remove(value),
            final(self).key == old(self).key,
            !old(self).shape().items().contains(value) ==> final(self).shape() == old(self).shape(),
            final(self).shape() == pruned(old(self).shape(), value),
        decreases old(self).shape().height(), 0nat,
    {
        let ghost os = self.shape();
        let ghost ls = Self::shape_of(self.left);
        let ghost rs = Self::shape_of(self.right);
        let ghost m = Some(self.key.rank());
        proof {
            os.lemma_node(None, None);
        }
        match self.left.take() {
            Some(mut left) => {
                let ghost ll = Self::shape_of(left.left);
                let ghost lr = Self::shape_of(left.right);
                proof {
                    assert(ls == left.shape());
                    ls.lemma_node(None, m);
                }
                if same_key(&left.key, &value) {
                    if left.left.is_none() && left.right.is_none() {
                        self.left = None;
                    } else if left.left.is_none() && !left.right.is_none() {
                        self.left = left.right;
                    } else if !left.left.is_none() && left.right.is_none() {
                        self.left = left.left;
                    } else {
                        Self::_delete_node_have_two_children(&mut left);
                        self.left = Some(left);
                        assert(Self::shape_of(self.left) == left.shape());
                    }
                } else {
                    left.delete(value);
                    self.left = Some(left);
                    assert(Self::shape_of(self.left) == left.shape());
                }
                proof {
                    let nl = Self::shape_of(self.left);
                    assert(nl == pruned(ls, value));
                    assert(ll.items() =~= Set::<T>::empty() <== ll is Nil);
                    assert(lr.items() =~= Set::<T>::empty() <== lr is Nil);
                    assert(nl.is_search_tree());
                    assert(nl.items() =~= ls.items().remove(value));
                    nl.lemma_rebound(None, None, None, m);
                    assert(self.shape().items() == nl.items().union(rs.items()).insert(self.key));
                    assert(self.shape().items() =~= os.items().remove(value));
                }
            },
            None => {
                assert(ls.items() =~= Set::<T>::empty());
                assert(pruned(ls, value) == ls);
                assert(self.shape().items() =~= os.items().remove(value));
            },
        }
    }
}

impl<T: OrderedKey> Linked<T, BSTreeNode<T>> for BSTree<T> {
    closed spec fn wf(&self) -> bool {
        BSTreeNode::shape_of(self.root).is_search_tree()
    }

    closed spec fn shape(&self) -> Shape<T> {
        BSTreeNode::shape_of(self.root)
    }

    open spec fn has_room(&self) -> bool {
        true
    }

    closed spec fn owns(&self, link: Box<BSTreeNode<T>>) -> bool {
        true
    }

    closed spec fn node_at(&self, link: Box<BSTreeNode<T>>) -> BSTreeNode<T> {
        *link
    }

    closed spec fn rank(&self, link: Option<Box<BSTreeNode<T>>>) -> nat {
        BSTreeNode::shape_of(link).height()
    }

    closed spec fn subtree(&self, link: Option<Box<BSTreeNode<T>>>) -> Shape<T> {
        BSTreeNode::shape_of(link)
    }

    proof fn lemma_subtree(&self, link: Option<Box<BSTreeNode<T>>>) {
    }

    proof fn lemma_search_tree(&self) {
    }

    fn room(&self) -> (r: bool) {
        true
    }

    fn get_root(&self) -> (r: &Option<Box<BSTreeNode<T>>>) {
        &self.root
    }

    fn node<'a>(&'a self, link: &'a Box<BSTreeNode<T>>) -> (n: &'a BSTreeNode<T>) {
        &**link
    }
}

impl<T: OrderedKey> Tree<T, BSTreeNode<T>> for BSTree<T> {
    /// Descends by comparison and attaches the key as a new leaf.
    fn insert(&mut self, value: T) -> (inserted: bool)
        ensures
            final(self).shape() == grafted(old(self).shape(), value),
    {
        match self.root.take() {
            None => {
                let leaf = BSTreeNode::new(value);
                assert(leaf.shape().is_search_tree()) by {
                    reveal_with_fuel(Shape::ordered_within, 2);
                }
                self.root = Some(Box::new(leaf));
                assert(BSTreeNode::shape_of(self.root) == leaf.shape());
                assert(self.shape().items() =~= old(self).shape().items().insert(value));
                true
            },
            Some(mut root) => {
                assert(old(self).shape() == root.shape());
                let inserted = root.insert(value);
                self.root = Some(root);
                assert(BSTreeNode::shape_of(self.root) == root.shape());
                inserted
            },
        }
    }

    /// Removes the key. A node with two children takes the smallest key
    /// of its right subtree; a node with one child is replaced by it.
    fn delete(&mut self, value: T) -> (removed: bool)
        ensures
            final(self).shape() == pruned(old(self).shape(), value),
    {
        if self.root.is_none() || !contains_below(self, self.get_root(), value) {
            proof {
                assert(self.shape().items() =~= old(self).shape().items().remove(value));
                lemma_prune_absent(self.shape(), value);
            }
            return false;
        }
        match self.root.take() {
            Some(mut root) => {
                let ghost rl = BSTreeNode::shape_of(root.left);
                let ghost rr = BSTreeNode::shape_of(root.right);
                proof {
                    assert(old(self).shape() == root.shape());
                    root.shape().lemma_node(None, None);
                    assert(rl.items() =~= Set::<T>::empty() <== rl is Nil);
                    assert(rr.items() =~= Set::<T>::empty() <== rr is Nil);
                }
                if same_key(&root.key, &value) {
                    if root.left.is_none() && root.right.is_none() {
                        self.root = None;
                    } else if root.left.is_none() && !root.right.is_none() {
                        self.root = root.right;
                    } else if !root.left.is_none() && root.right.is_none() {
                        self.root = root.left;
                    } else {
                        BSTreeNode::_delete_node_have_two_children(&mut root);
                        self.root = Some(root);
                        assert(BSTreeNode::shape_of(self.root) == root.shape());
                    }
                } else {
                    root.delete(value);
                    self.root = Some(root);
                    assert(BSTreeNode::shape_of(self.root) == root.shape());
                }
                assert(self.shape() == pruned(old(self).shape(), value));
                assert(self.shape().items() =~= old(self).shape().items().remove(value));
            },
            None => {},
        }
        true
    }
}

impl<T: OrderedKey> BSTree<T> {
    /// Makes a new empty tree.
    pub fn new() -> (tree: Self)
        ensures
            tree.wf(),
            tree.shape() is Nil,
    {
        BSTree { root: None }
    }

    /// Removes all keys.
    pub fn clear(&mut self)
        ensures
            final(self).wf(),
            final(self).shape() is Nil,
    {
        *self = BSTree::new();
    }
}

} // verus!
