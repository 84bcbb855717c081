//! A red-black tree whose nodes live in one store and name each other by
//! their place in it: two children and the parent.

use vstd::arithmetic::power2::{lemma_pow2_adds, lemma_pow2_strictly_increases, pow2};
use vstd::prelude::*;
use crate::base::{Linked, Tree, TreeNode};
use crate::key::OrderedKey;
use crate::rbmodel::Glimpse;
use crate::shape::{above, below, Shape};

verus! {

/// The color of a node.
#[derive(Clone, Copy, Debug, PartialEq, Eq, Structural)]
pub enum NodeColor {
    Red,
    Black,
}

/// A node of the red-black tree. `parent`, `left` and `right` are places in
/// the store of the tree that owns the node.
#[derive(Debug)]
pub struct RBTreeNode<T: OrderedKey> {
    pub key: T,
    color: NodeColor,
    parent: Option<usize>,
    left: Option<usize>,
    right: Option<usize>,
}

/// What the proof records about a place of the store.
ghost struct Note {
    /// The place holds a node of the tree.
    live: bool,
    /// Rank of the key of the nearest ancestor with a smaller key: every
    /// key below this node is larger.
    lo: Option<int>,
    /// Rank of the key of the nearest ancestor with a larger key.
    hi: Option<int>,
    /// Number of black nodes on every path from this node down, the node
    /// itself included.
    bh: nat,
}

/// Which color rules are suspended while a repair is under way.
ghost struct Relax {
    /// A red node that may have a red parent, and may be a red root.
    redred: Option<usize>,
    /// A leaf that is about to leave the tree and counts as absent.
    doomed: Option<usize>,
    /// A node whose paths lack one black node.
    short: Option<usize>,
}

/// A color and a black height to record for the node at `at`.
ghost struct Dye {
    at: usize,
    color: NodeColor,
    bh: nat,
}

/// A red-black tree.
pub struct RBTree<T: OrderedKey> {
    nodes: Vec<RBTreeNode<T>>,
    root: Option<usize>,
    free: Vec<usize>,
    notes: Ghost<Seq<Note>>,
}

/// All coloring rules hold everywhere.
spec fn strict() -> Relax {
    Relax { redred: None, doomed: None, short: None }
}

/// The parent of the node `i`.
spec fn parent_of<T: OrderedKey>(t: &RBTree<T>, i: usize) -> usize {
    t.nd(i).parent->0
}

/// Only the red node `x` may have a red parent.
spec fn rr(x: usize) -> Relax {
    Relax { redred: Some(x), doomed: None, short: None }
}

impl<T> Shape<(T, NodeColor)> {
    /// The same tree without the colors.
    pub open spec fn unpainted(self) -> Shape<T>
        decreases self,
    {
        match self {
            Shape::Nil => Shape::Nil,
            Shape::Node { left, item, right } => Shape::Node {
                left: Box::new(left.unpainted()),
                item: item.0,
                right: Box::new(right.unpainted()),
            },
        }
    }

    /// The root is a red node.
    pub open spec fn root_is_red(self) -> bool {
        self matches Shape::Node { item, .. } && item.1 == NodeColor::Red
    }

    /// No red node has a red child.
    pub open spec fn no_red_red(self) -> bool
        decreases self,
    {
        match self {
            Shape::Nil => true,
            Shape::Node { left, item, right } => {
                &&& left.no_red_red()
                &&& right.no_red_red()
                &&& item.1 == NodeColor::Red ==> !left.root_is_red() && !right.root_is_red()
            },
        }
    }

    /// Number of black nodes on the left spine.
    pub open spec fn black_height(self) -> nat
        decreases self,
    {
        match self {
            Shape::Nil => 0,
            Shape::Node { left, item, right } => left.black_height() + (if item.1
                == NodeColor::Black {
                1nat
            } else {
                0nat
            }),
        }
    }

    /// At every node the two subtrees have the same black height, so every
    /// path from a node down to an absent child passes as many black nodes.
    pub open spec fn black_balanced(self) -> bool
        decreases self,
    {
        match self {
            Shape::Nil => true,
            Shape::Node { left, item, right } => {
                &&& left.black_balanced()
                &&& right.black_balanced()
                &&& left.black_height() == right.black_height()
            },
        }
    }

    /// The color rules of a red-black tree: a black root, no red node with
    /// a red child, and the same number of black nodes on every path down.
    pub open spec fn is_red_black(self) -> bool {
        &&& !self.root_is_red()
        &&& self.no_red_red()
        &&& self.black_balanced()
    }

    /// In a tree that keeps the color rules, the height is at most twice the
    /// black height (one more below a red root), and the tree has at least
    /// two to the power of its black height, less one, nodes.
    pub proof fn lemma_black_height_bounds(self)
        requires
            self.no_red_red(),
            self.black_balanced(),
        ensures
            self.height() <= 2 * self.black_height() + (if self.root_is_red() {
                1nat
            } else {
                0nat
            }),
            pow2(self.black_height()) <= self.size() + 1,
        decreases self,
    {
        match self {
            Shape::Nil => {
                vstd::arithmetic::power2::lemma2_to64();
            },
            Shape::Node { left, item, right } => {
                left.lemma_black_height_bounds();
                right.lemma_black_height_bounds();
                vstd::arithmetic::power2::lemma_pow2_unfold(left.black_height() + 1);
            },
        }
    }

    /// Removing the colors changes no measure of the tree.
    pub proof fn lemma_unpainted(self)
        ensures
            self.unpainted().height() == self.height(),
            self.unpainted().size() == self.size(),
            self.unpainted().leaves() == self.leaves(),
            self is Nil <==> self.unpainted() is Nil,
        decreases self,
    {
        match self {
            Shape::Nil => {},
            Shape::Node { left, item, right } => {
                left.lemma_unpainted();
                right.lemma_unpainted();
            },
        }
    }
}

impl<T: OrderedKey> RBTreeNode<T> {
    /// Makes a red node without links.
    fn new(value: T) -> (n: RBTreeNode<T>)
        ensures
            n.key == value,
            n.color == NodeColor::Red,
            n.parent is None,
            n.left is None,
            n.right is None,
    {
        RBTreeNode { color: NodeColor::Red, key: value, parent: None, left: None, right: None }
    }

    /// The color of the node.
    pub closed spec fn color_of(&self) -> NodeColor {
        self.color
    }

    /// The link to the parent; absent at the root.
    pub closed spec fn parent_link(&self) -> Option<usize> {
        self.parent
    }

    /// The link to the parent; absent at the root.
    pub fn get_parent(&self) -> (p: &Option<usize>)
        ensures
            *p == self.parent_link(),
    {
        &self.parent
    }

    /// The color of the node.
    pub fn get_color(&self) -> (c: NodeColor)
        ensures
            c == self.color_of(),
    {
        self.color
    }
}

impl<T: OrderedKey> TreeNode<T> for RBTreeNode<T> {
    type Link = usize;

    closed spec fn left_link(&self) -> Option<usize> {
        self.left
    }

    closed spec fn right_link(&self) -> Option<usize> {
        self.right
    }

    closed spec fn data(&self) -> T {
        self.key
    }

    fn get_left(&self) -> (r: &Option<usize>) {
        &self.left
    }

    fn get_right(&self) -> (r: &Option<usize>) {
        &self.right
    }

    fn get_data(&self) -> (r: T) {
        self.key
    }
}

// What the tree states of itself.
impl<T: OrderedKey> RBTree<T> {
    /// Makes a new empty tree.
    pub fn new() -> (tree: Self)
        ensures
            tree.wf(),
            tree.shape() is Nil,
            tree.colored() is Nil,
    {
        RBTree { nodes: Vec::new(), root: None, free: Vec::new(), notes: Ghost(Seq::empty()) }
    }

    /// Removes all keys.
    pub fn clear(&mut self)
        ensures
            final(self).wf(),
            final(self).shape() is Nil,
            final(self).colored() is Nil,
    {
        *self = RBTree::new();
    }

    /// The link to the root; absent when the tree is empty.
    pub closed spec fn root_link(&self) -> Option<usize> {
        self.root
    }

    /// The tree below a link, each key with the color of its node.
    pub closed spec fn colored_below(&self, link: Option<usize>) -> Shape<(T, NodeColor)> {
        self.painted(link)
    }

    /// The tree with the color of each node.
    pub closed spec fn colored(&self) -> Shape<(T, NodeColor)> {
        self.painted(self.root)
    }

    /// The links agree with each other: each child names its parent, each
    /// node but the root is a child of the parent it names, and the root
    /// names no parent.
    pub open spec fn links_consistent(&self) -> bool {
        &&& self.root_link() matches Some(r) ==> self.owns(r) && self.node_at(r).parent_link()
            is None
        &&& forall|i: usize| #[trigger]
            self.owns(i) ==> {
                let n = self.node_at(i);
                &&& n.left_link() matches Some(l) ==> self.owns(l) && self.node_at(
                    l,
                ).parent_link() == Some(i)
                &&& n.right_link() matches Some(r) ==> self.owns(r) && self.node_at(
                    r,
                ).parent_link() == Some(i)
                &&& n.parent_link() matches Some(p) ==> self.owns(p) && (self.node_at(
                    p,
                ).left_link() == Some(i) || self.node_at(p).right_link() == Some(i))
                &&& n.parent_link() is None ==> self.root_link() == Some(i)
            }
    }

    /// The colored tree is what the links and the colors of the nodes show:
    /// below an absent link it is empty, and below a link to a node it has
    /// the key and the color of that node at its root, above the colored
    /// trees below the two child links. Without the colors it is the tree
    /// below the link.
    pub proof fn lemma_colored(&self, link: Option<usize>)
        requires
            self.wf(),
            link is Some ==> self.owns(link->0),
        ensures
            self.colored() == self.colored_below(self.root_link()),
            self.colored_below(link).unpainted() == self.subtree(link),
            match link {
                None => self.colored_below(link) == Shape::<(T, NodeColor)>::Nil,
                Some(l) => {
                    let n = self.node_at(l);
                    self.colored_below(link) == Shape::node(
                        self.colored_below(n.left_link()),
                        (n.data(), n.color_of()),
                        self.colored_below(n.right_link()),
                    )
                },
            },
    {
        if let Some(i) = link {
            self.lemma_descend(i);
        }
    }

    /// A valid tree keeps the invariants of a red-black tree: the keys are
    /// in search-tree order, the root is black, no red node has a red child,
    /// every path from a node down to an absent child passes the same number
    /// of black nodes, and the links agree with each other.
    pub proof fn lemma_red_black(&self)
        requires
            self.wf(),
        ensures
            self.colored().unpainted() == self.shape(),
            self.shape().is_search_tree(),
            self.colored().is_red_black(),
            self.links_consistent(),
    {
        if let Some(r) = self.root {
            self.lemma_painted(r);
            assert(self.link_ok(r));
            assert(self.color_ok(r, strict()));
        }
        assert forall|i: usize| #[trigger] self.owns(i) implies {
            let n = self.node_at(i);
            &&& n.left_link() matches Some(l) ==> self.owns(l) && self.node_at(l).parent_link()
                == Some(i)
            &&& n.right_link() matches Some(r) ==> self.owns(r) && self.node_at(r).parent_link()
                == Some(i)
            &&& n.parent_link() matches Some(p) ==> self.owns(p) && (self.node_at(p).left_link()
                == Some(i) || self.node_at(p).right_link() == Some(i))
            &&& n.parent_link() is None ==> self.root_link() == Some(i)
        } by {
            assert(self.link_ok(i));
        }
    }

    /// A valid tree with n nodes is at most twice log2(n + 1) high: two to the
    /// power of its height is at most the square of n + 1. Its height is 0
    /// exactly when it has no node.
    pub proof fn lemma_height_bound(&self)
        requires
            self.wf(),
        ensures
            pow2(self.shape().height()) <= (self.shape().size() + 1) * (self.shape().size() + 1),
            self.shape().height() == 0 <==> self.shape().size() == 0,
    {
        self.shape().lemma_measures();
        self.lemma_red_black();
        let s = self.colored();
        s.lemma_unpainted();
        s.lemma_black_height_bounds();
        let h = s.height();
        let b = s.black_height();
        let n = s.size();
        lemma_pow2_adds(b, b);
        if h < 2 * b {
            lemma_pow2_strictly_increases(h, 2 * b);
        }
        assert(pow2(b) * pow2(b) <= (n + 1) * (n + 1)) by (nonlinear_arith)
            requires
                pow2(b) <= n + 1,
        ;
    }

    /// The color of the root; black when the tree is empty.
    pub fn root_color(&self) -> (c: NodeColor)
        requires
            self.wf(),
        ensures
            c == NodeColor::Black,
            self.colored() matches Shape::Node { item, .. } ==> item.1 == c,
    {
        proof {
            if let Some(r) = self.root {
                self.lemma_painted(r);
            }
        }
        match self.root {
            None => NodeColor::Black,
            Some(r) => self.nodes[r].color,
        }
    }
}

impl<T: OrderedKey> Linked<T, RBTreeNode<T>> for RBTree<T> {
    closed spec fn wf(&self) -> bool {
        &&& self.structure_ok()
        &&& self.colors_ok(strict())
    }

    closed spec fn shape(&self) -> Shape<T> {
        self.painted(self.root).unpainted()
    }

    open spec fn has_room(&self) -> bool {
        true
    }

    closed spec fn owns(&self, link: usize) -> bool {
        self.live(link)
    }

    closed spec fn node_at(&self, link: usize) -> RBTreeNode<T> {
        self.nd(link)
    }

    closed spec fn rank(&self, link: Option<usize>) -> nat {
        self.rk(link)
    }

    closed spec fn subtree(&self, link: Option<usize>) -> Shape<T> {
        self.painted(link).unpainted()
    }

    proof fn lemma_subtree(&self, link: Option<usize>) {
        if let Some(i) = link {
            self.lemma_descend(i);
        }
    }

    proof fn lemma_search_tree(&self) {
        if let Some(r) = self.root {
            self.lemma_painted(r);
        }
    }

    fn room(&self) -> (r: bool) {
        true
    }

    fn get_root(&self) -> (r: &Option<usize>)
        ensures
            *r == self.root_link(),
    {
        &self.root
    }

    fn node<'a>(&'a self, link: &'a usize) -> (n: &'a RBTreeNode<T>) {
        &self.nodes[*link]
    }
}

impl<T: OrderedKey> Tree<T, RBTreeNode<T>> for RBTree<T> {
    /// Attaches a new key as a red leaf where the order wants it, then
    /// restores the color rules by recoloring and rotating.
    fn insert(&mut self, value: T) -> (inserted: bool)
        ensures
            final(self).colored().unpainted() == final(self).shape(),
            final(self).shape().is_search_tree(),
            final(self).colored().is_red_black(),
            final(self).links_consistent(),
            final(self).colored() == old(self).colored().inserted(value),
    {
        let (found, parent_option) = self.search(value);
        if found {
            // The key is there already: nothing changes.
            proof {
                assert(self.shape().items() =~= old(self).shape().items().insert(value));
                self.lemma_red_black();
                self.colored().lemma_inserted_present(value);
            }
            return false;
        }
        match parent_option {
            None => {
                let x = self.attach_root(value);
                proof {
                    Self::lemma_added_items(old(self), self, x, value);
                    assert(old(self).colored() == Shape::<(T, NodeColor)>::Nil);
                }
            },
            Some(p) => {
                let x = self.attach_leaf(p, value);
                let ghost mid = *self;
                proof {
                    old(self).lemma_modeled();
                    old(self).lemma_red_black();
                    old(self).colored().lemma_sorted(None, None);
                    Self::lemma_leaf_model(old(self), &mid, old(self).colored(), p, x, value);
                }
                self._insert_repair(x, Ghost(old(self).colored().sprouted(value)));
                proof {
                    assert(Self::added(old(self), self, x, value)) by {
                        assert forall|i: usize| #[trigger] old(self).live(i) implies self.live(i)
                            && self.nd(i).key == old(self).nd(i).key by {
                            assert(mid.live(i));
                            assert(self.nt(i).live == mid.nt(i).live);
                            assert(self.nd(i).key == mid.nd(i).key);
                        }
                        assert forall|i: usize| #[trigger] self.live(i) implies i == x || old(
                            self,
                        ).live(i) by {
                            assert(self.nt(i).live == mid.nt(i).live);
                            assert(mid.live(i));
                        }
                        assert(self.nt(x).live == mid.nt(x).live);
                        assert(self.nd(x).key == mid.nd(x).key);
                    }
                    Self::lemma_added_items(old(self), self, x, value);
                    assert(mid.nd(x).key == value);
                    old(self).colored().lemma_grown(value);
                }
            },
        }
        proof {
            self.lemma_red_black();
        }
        true
    }

    /// Finds the node of the key and removes it, then restores the color
    /// rules where a black node has left.
    fn delete(&mut self, value: T) -> (removed: bool)
        ensures
            final(self).colored().unpainted() == final(self).shape(),
            final(self).shape().is_search_tree(),
            final(self).colored().is_red_black(),
            final(self).links_consistent(),
            final(self).colored() == old(self).colored().deleted(value),
    {
        let (flag, searched_node) = self.search(value);
        match flag {
            false => {
                // The key is not there: nothing changes.
                proof {
                    assert(self.shape().items() =~= old(self).shape().items().remove(value));
                    self.lemma_red_black();
                }
                false
            },
            true => {
                let node = searched_node.unwrap();
                let Ghost(gone) = self._delete_private(node);
                proof {
                    Self::lemma_removed_items(old(self), self, node, gone);
                    self.lemma_red_black();
                }
                true
            },
        }
    }
}

// Places, links and keys.
impl<T: OrderedKey> RBTree<T> {
    /// The node at the place `i`.
    spec fn nd(&self, i: usize) -> RBTreeNode<T> {
        self.nodes@[i as int]
    }

    /// What is recorded of the place `i`.
    spec fn nt(&self, i: usize) -> Note {
        self.notes@[i as int]
    }

    /// The place `i` holds a node of the tree.
    spec fn live(&self, i: usize) -> bool {
        i < self.nodes@.len() && self.nt(i).live
    }

    /// The position of the key at `i` in the order of keys.
    spec fn kr(&self, i: usize) -> int {
        self.nd(i).key.rank()
    }

    /// The node at `i` is black.
    spec fn is_black(&self, i: usize) -> bool {
        self.nd(i).color == NodeColor::Black
    }

    /// The links and the key of the live node `i` agree with its neighbours.
    spec fn link_ok(&self, i: usize) -> bool {
        let n = self.nd(i);
        let a = self.nt(i);
        &&& above(a.lo, self.kr(i))
        &&& below(a.hi, self.kr(i))
        &&& n.left matches Some(l) ==> self.live(l) && self.nd(l).parent == Some(i) && self.nt(
            l,
        ).lo == a.lo && self.nt(l).hi == Some(self.kr(i))
        &&& n.right matches Some(r) ==> self.live(r) && self.nd(r).parent == Some(i) && self.nt(
            r,
        ).lo == Some(self.kr(i)) && self.nt(r).hi == a.hi
        &&& n.parent matches Some(p) ==> self.live(p) && (self.nd(p).left == Some(i) || self.nd(
            p,
        ).right == Some(i))
        &&& n.parent is None ==> self.root == Some(i)
    }

    /// Search-tree order and consistent links, at every node.
    spec fn structure_ok(&self) -> bool {
        &&& self.nodes@.len() == self.notes@.len()
        &&& self.root matches Some(r) ==> self.live(r) && self.nd(r).parent is None && self.nt(
            r,
        ).lo is None && self.nt(r).hi is None
        &&& self.root is None ==> forall|i: usize| !self.live(i)
        &&& forall|i: usize| self.live(i) ==> #[trigger] self.link_ok(i)
        &&& forall|j: int|
            0 <= j < self.free@.len() ==> (#[trigger] self.free@[j]) < self.nodes@.len()
                && !self.live(self.free@[j])
        &&& forall|j: int, k: int|
            0 <= j < k < self.free@.len() ==> #[trigger] self.free@[j] != #[trigger] self.free@[k]
    }

    /// Sets the left link of the node at `i`.
    fn set_left(&mut self, i: usize, v: Option<usize>)
        requires
            i < old(self).nodes@.len(),
        ensures
            final(self).nodes@ == old(self).nodes@.update(
                i as int,
                RBTreeNode { left: v, ..old(self).nodes@[i as int] },
            ),
            final(self).root == old(self).root,
            final(self).free == old(self).free,
            final(self).notes == old(self).notes,
    {
        self.nodes[i].left = v;
    }

    /// Sets the right link of the node at `i`.
    fn set_right(&mut self, i: usize, v: Option<usize>)
        requires
            i < old(self).nodes@.len(),
        ensures
            final(self).nodes@ == old(self).nodes@.update(
                i as int,
                RBTreeNode { right: v, ..old(self).nodes@[i as int] },
            ),
            final(self).root == old(self).root,
            final(self).free == old(self).free,
            final(self).notes == old(self).notes,
    {
        self.nodes[i].right = v;
    }

    /// Sets the parent link of the node at `i`.
    fn set_parent(&mut self, i: usize, v: Option<usize>)
        requires
            i < old(self).nodes@.len(),
        ensures
            final(self).nodes@ == old(self).nodes@.update(
                i as int,
                RBTreeNode { parent: v, ..old(self).nodes@[i as int] },
            ),
            final(self).root == old(self).root,
            final(self).free == old(self).free,
            final(self).notes == old(self).notes,
    {
        self.nodes[i].parent = v;
    }

    /// Sets the child link of the node at `i` on the given side.
    fn set_child(&mut self, i: usize, left: bool, v: Option<usize>)
        requires
            i < old(self).nodes@.len(),
        ensures
            final(self).nodes@ == old(self).nodes@.update(
                i as int,
                if left {
                    RBTreeNode { left: v, ..old(self).nodes@[i as int] }
                } else {
                    RBTreeNode { right: v, ..old(self).nodes@[i as int] }
                },
            ),
            final(self).root == old(self).root,
            final(self).free == old(self).free,
            final(self).notes == old(self).notes,
    {
        if left {
            self.set_left(i, v);
        } else {
            self.set_right(i, v);
        }
    }

    /// The child link of the node at `i` on the given side.
    fn child(&self, i: usize, left: bool) -> (r: Option<usize>)
        requires
            i < self.nodes@.len(),
        ensures
            r == self.kid(i, left),
    {
        if left {
            self.nodes[i].left
        } else {
            self.nodes[i].right
        }
    }

    /// Whether `node` is the left child of its parent.
    fn _is_left_child(&self, node: usize) -> (r: bool)
        requires
            node < self.nodes@.len(),
            self.nd(node).parent matches Some(p) && p < self.nodes@.len(),
        ensures
            r == (self.nd(self.nd(node).parent->0).left == Some(node)),
    {
        match self.nodes[node].parent {
            Some(p) => match self.nodes[p].left {
                Some(l) => l == node,
                None => false,
            },
            None => false,
        }
    }

    /// The child link of the node at `i` on the given side.
    spec fn kid(&self, i: usize, left: bool) -> Option<usize> {
        if left {
            self.nd(i).left
        } else {
            self.nd(i).right
        }
    }

    /// `post` has the nodes of `pre` in the same places with the same keys.
    spec fn same_keys(pre: &Self, post: &Self) -> bool {
        &&& post.nodes@.len() == pre.nodes@.len()
        &&& post.free == pre.free
        &&& forall|i: usize|
            i < pre.nodes@.len() ==> (#[trigger] post.nd(i)).key == pre.nd(i).key
        &&& forall|i: usize|
            i < pre.nodes@.len() ==> (#[trigger] post.nt(i)).live == pre.nt(i).live
    }

    /// `post` differs from `pre` at most in colors and recorded black
    /// heights.
    spec fn same_links(pre: &Self, post: &Self) -> bool {
        &&& post.nodes@.len() == pre.nodes@.len()
        &&& post.notes@.len() == pre.notes@.len()
        &&& post.free == pre.free
        &&& post.root == pre.root
        &&& forall|i: usize|
            i < pre.nodes@.len() ==> (#[trigger] post.nd(i)).key == pre.nd(i).key && post.nd(
                i,
            ).parent == pre.nd(i).parent && post.nd(i).left == pre.nd(i).left && post.nd(i).right
                == pre.nd(i).right
        &&& forall|i: usize|
            i < pre.nodes@.len() ==> (#[trigger] post.nt(i)).live == pre.nt(i).live && post.nt(
                i,
            ).lo == pre.nt(i).lo && post.nt(i).hi == pre.nt(i).hi
    }

    /// A change that leaves keys, links and bounds alone keeps the
    /// structure valid.
    proof fn lemma_same_links(pre: &Self, post: &Self)
        requires
            pre.structure_ok(),
            Self::same_links(pre, post),
        ensures
            post.structure_ok(),
            Self::same_keys(pre, post),
    {
        assert forall|i: usize| post.live(i) implies #[trigger] post.link_ok(i) by {
            assert(pre.link_ok(i));
        }
        assert forall|j: int| 0 <= j < post.free@.len() implies (#[trigger] post.free@[j])
            < post.nodes@.len() && !post.live(post.free@[j]) by {
            assert(!pre.live(pre.free@[j]));
        }
        if post.root is None {
            assert forall|i: usize| !post.live(i) by {
                assert(!pre.live(i));
            }
        }
    }

    /// Two changes that leave the links alone make one such change.
    proof fn lemma_links_links(pre: &Self, mid: &Self, post: &Self)
        requires
            Self::same_links(pre, mid),
            Self::same_links(mid, post),
        ensures
            Self::same_links(pre, post),
    {
        assert forall|i: usize| i < pre.nodes@.len() implies (#[trigger] post.nd(i)).key == pre.nd(
            i,
        ).key && post.nd(i).parent == pre.nd(i).parent && post.nd(i).left == pre.nd(i).left
            && post.nd(i).right == pre.nd(i).right by {
            assert(mid.nd(i).key == pre.nd(i).key);
        }
        assert forall|i: usize| i < pre.nodes@.len() implies (#[trigger] post.nt(i)).live == pre.nt(
            i,
        ).live && post.nt(i).lo == pre.nt(i).lo && post.nt(i).hi == pre.nt(i).hi by {
            assert(mid.nt(i).live == pre.nt(i).live);
        }
    }
}

// Rotations.
impl<T: OrderedKey> RBTree<T> {
    /// `post` has the links of `pre` after the rotation at `x` that promotes
    /// the child of `x` on the side away from `dir` (`dir` is true for a left
    /// rotation), with the keys and the recorded bounds to match.
    spec fn turned(pre: &Self, post: &Self, x: usize, dir: bool) -> bool {
        let y = pre.kid(x, !dir)->0;
        let p = pre.nd(x).parent;
        let c = pre.kid(y, dir);
        &&& post.nodes@.len() == pre.nodes@.len()
        &&& post.notes@.len() == pre.notes@.len()
        &&& post.free == pre.free
        &&& post.root == (if p is None {
            Some(y)
        } else {
            pre.root
        })
        &&& forall|i: usize| i < pre.nodes@.len() ==> (#[trigger] post.nd(i)).key == pre.nd(i).key
        &&& forall|i: usize|
            i < pre.nodes@.len() ==> (#[trigger] post.nt(i)).live == pre.nt(i).live
        &&& forall|i: usize|
            i < pre.nodes@.len() && i != x && i != y ==> (#[trigger] post.nt(i)).lo == pre.nt(
                i,
            ).lo && post.nt(i).hi == pre.nt(i).hi
        &&& post.nt(y).lo == pre.nt(x).lo
        &&& post.nt(y).hi == pre.nt(x).hi
        &&& post.nt(x).lo == (if dir {
            pre.nt(x).lo
        } else {
            Some(pre.kr(y))
        })
        &&& post.nt(x).hi == (if dir {
            Some(pre.kr(y))
        } else {
            pre.nt(x).hi
        })
        &&& post.nd(x).parent == Some(y)
        &&& post.kid(x, dir) == pre.kid(x, dir)
        &&& post.kid(x, !dir) == c
        &&& post.nd(y).parent == p
        &&& post.kid(y, dir) == Some(x)
        &&& post.kid(y, !dir) == pre.kid(y, !dir)
        &&& p matches Some(pp) ==> {
            &&& post.nd(pp).parent == pre.nd(pp).parent
            &&& post.nd(pp).left == (if pre.nd(pp).left == Some(x) {
                Some(y)
            } else {
                pre.nd(pp).left
            })
            &&& post.nd(pp).right == (if pre.nd(pp).left == Some(x) {
                pre.nd(pp).right
            } else {
                Some(y)
            })
        }
        &&& c matches Some(cc) ==> {
            &&& post.nd(cc).parent == Some(x)
            &&& post.nd(cc).left == pre.nd(cc).left
            &&& post.nd(cc).right == pre.nd(cc).right
        }
        &&& forall|i: usize|
            i < pre.nodes@.len() && i != x && i != y && Some(i) != p && Some(i) != c ==> (
            #[trigger] post.nd(i)).parent == pre.nd(i).parent && post.nd(i).left == pre.nd(i).left
                && post.nd(i).right == pre.nd(i).right
    }

    /// `post` is `pre` after a rotation: the links have turned and nothing
    /// else has changed.
    spec fn rotated(pre: &Self, post: &Self, x: usize, dir: bool) -> bool {
        &&& Self::turned(pre, post, x, dir)
        &&& forall|i: usize|
            i < pre.nodes@.len() ==> (#[trigger] post.nd(i)).color == pre.nd(i).color
        &&& forall|i: usize| i < pre.nodes@.len() ==> (#[trigger] post.nt(i)).bh == pre.nt(i).bh
    }

    /// A rotation keeps the search-tree order and the links consistent.
    proof fn lemma_turned(pre: &Self, post: &Self, x: usize, dir: bool)
        requires
            pre.structure_ok(),
            pre.live(x),
            pre.kid(x, !dir) is Some,
            Self::turned(pre, post, x, dir),
        ensures
            post.structure_ok(),
    {
        let y = pre.kid(x, !dir)->0;
        let p = pre.nd(x).parent;
        let c = pre.kid(y, dir);
        assert(pre.link_ok(x));
        assert(pre.link_ok(y));
        if let Some(pp) = p {
            assert(pre.link_ok(pp));
        }
        if let Some(cc) = c {
            assert(pre.link_ok(cc));
        }
        assert forall|i: usize| post.live(i) implies #[trigger] post.link_ok(i) by {
            assert(pre.live(i));
            assert(pre.link_ok(i));
            if i == x {
            } else if i == y {
            } else if Some(i) == p {
            } else if Some(i) == c {
            } else {
                if let Some(l) = pre.nd(i).left {
                    assert(pre.link_ok(l));
                }
                if let Some(r) = pre.nd(i).right {
                    assert(pre.link_ok(r));
                }
                if let Some(q) = pre.nd(i).parent {
                    assert(pre.link_ok(q));
                }
            }
        }
        assert forall|j: int| 0 <= j < post.free@.len() implies (#[trigger] post.free@[j])
            < post.nodes@.len() && !post.live(post.free@[j]) by {
            assert(!pre.live(pre.free@[j]));
        }
        if post.root is None {
            assert(false);
        }
    }

    /// Promotes the right child of `x` to the place of `x`, which becomes
    /// its left child; the left subtree of the promoted node becomes the
    /// right subtree of `x`.
    fn _left_rotate(&mut self, x: usize)
        requires
            old(self).structure_ok(),
            old(self).live(x),
            old(self).nd(x).right is Some,
        ensures
            final(self).structure_ok(),
            Self::rotated(old(self), final(self), x, true),
    {
        let p = self.nodes[x].parent;
        let y = self.nodes[x].right.unwrap();
        proof {
            assert(self.link_ok(x));
            assert(self.link_ok(y));
        }
        let c = self.nodes[y].left;
        proof {
            if let Some(pp) = p {
                assert(self.link_ok(pp));
            }
            if let Some(cc) = c {
                assert(self.link_ok(cc));
            }
        }
        // The promoted node takes the place of `x` below the parent of `x`,
        // or becomes the root.
        match p {
            None => {
                self.root = Some(y);
            },
            Some(pp) => {
                if self._is_left_child(x) {
                    self.set_left(pp, Some(y));
                } else {
                    self.set_right(pp, Some(y));
                }
            },
        }
        self.set_parent(y, p);
        self.set_parent(x, Some(y));
        // The inner subtree changes sides.
        self.set_right(x, c);
        match c {
            Some(cc) => {
                self.set_parent(cc, Some(x));
            },
            None => {},
        }
        self.set_left(y, Some(x));
        proof {
            let ghost ox = old(self).nt(x);
            let ghost oy = old(self).nt(y);
            let ghost ky = old(self).kr(y);
            self.notes@ = self.notes@.update(x as int, Note { hi: Some(ky), ..ox }).update(
                y as int,
                Note { lo: ox.lo, hi: ox.hi, ..oy },
            );
            assert(Self::rotated(old(self), self, x, true));
            Self::lemma_turned(old(self), self, x, true);
        }
    }

    /// Promotes the left child of `x` to the place of `x`, which becomes
    /// its right child; the right subtree of the promoted node becomes the
    /// left subtree of `x`.
    fn _right_rotate(&mut self, x: usize)
        requires
            old(self).structure_ok(),
            old(self).live(x),
            old(self).nd(x).left is Some,
        ensures
            final(self).structure_ok(),
            Self::rotated(old(self), final(self), x, false),
    {
        let p = self.nodes[x].parent;
        let y = self.nodes[x].left.unwrap();
        proof {
            assert(self.link_ok(x));
            assert(self.link_ok(y));
        }
        let c = self.nodes[y].right;
        proof {
            if let Some(pp) = p {
                assert(self.link_ok(pp));
            }
            if let Some(cc) = c {
                assert(self.link_ok(cc));
            }
        }
        match p {
            None => {
                self.root = Some(y);
            },
            Some(pp) => {
                if self._is_left_child(x) {
                    self.set_left(pp, Some(y));
                } else {
                    self.set_right(pp, Some(y));
                }
            },
        }
        self.set_parent(y, p);
        self.set_parent(x, Some(y));
        self.set_left(x, c);
        match c {
            Some(cc) => {
                self.set_parent(cc, Some(x));
            },
            None => {},
        }
        self.set_right(y, Some(x));
        proof {
            let ghost ox = old(self).nt(x);
            let ghost oy = old(self).nt(y);
            let ghost ky = old(self).kr(y);
            self.notes@ = self.notes@.update(x as int, Note { lo: Some(ky), ..ox }).update(
                y as int,
                Note { lo: ox.lo, hi: ox.hi, ..oy },
            );
            assert(Self::rotated(old(self), self, x, false));
            Self::lemma_turned(old(self), self, x, false);
        }
    }

    /// Rotates at `x`: to the left when `dir` is true, else to the right.
    fn rotate(&mut self, x: usize, dir: bool)
        requires
            old(self).structure_ok(),
            old(self).live(x),
            old(self).kid(x, !dir) is Some,
        ensures
            final(self).structure_ok(),
            Self::rotated(old(self), final(self), x, dir),
    {
        if dir {
            self._left_rotate(x);
        } else {
            self._right_rotate(x);
        }
    }

    /// A rotation after a change that left the links alone is that
    /// rotation.
    proof fn lemma_links_turn(pre: &Self, mid: &Self, post: &Self, x: usize, dir: bool)
        requires
            x < pre.nodes@.len(),
            pre.kid(x, !dir) matches Some(y) && y < pre.nodes@.len(),
            pre.nd(x).parent matches Some(p) ==> p < pre.nodes@.len(),
            pre.kid(pre.kid(x, !dir)->0, dir) matches Some(c) ==> c < pre.nodes@.len(),
            Self::same_links(pre, mid),
            Self::turned(mid, post, x, dir),
        ensures
            Self::turned(pre, post, x, dir),
    {
        let y = pre.kid(x, !dir)->0;
        assert(mid.nd(x).key == pre.nd(x).key);
        assert(mid.nd(y).key == pre.nd(y).key);
        assert(mid.nt(x).live == pre.nt(x).live);
        assert(mid.nt(y).live == pre.nt(y).live);
        if let Some(pp) = pre.nd(x).parent {
            assert(mid.nd(pp).key == pre.nd(pp).key);
        }
        if let Some(cc) = pre.kid(y, dir) {
            assert(mid.nd(cc).key == pre.nd(cc).key);
        }
        assert forall|i: usize| i < pre.nodes@.len() implies (#[trigger] post.nd(i)).key == pre.nd(
            i,
        ).key by {
            assert(mid.nd(i).key == pre.nd(i).key);
        }
        assert forall|i: usize| i < pre.nodes@.len() implies (#[trigger] post.nt(i)).live == pre.nt(
            i,
        ).live by {
            assert(mid.nt(i).live == pre.nt(i).live);
        }
        assert forall|i: usize| i < pre.nodes@.len() && i != x && i != y implies (
        #[trigger] post.nt(i)).lo == pre.nt(i).lo && post.nt(i).hi == pre.nt(i).hi by {
            assert(mid.nt(i).live == pre.nt(i).live);
        }
        assert forall|i: usize|
            i < pre.nodes@.len() && i != x && i != y && Some(i) != pre.nd(x).parent && Some(i)
                != pre.kid(y, dir) implies (#[trigger] post.nd(i)).parent == pre.nd(i).parent
            && post.nd(i).left == pre.nd(i).left && post.nd(i).right == pre.nd(i).right by {
            assert(mid.nd(i).key == pre.nd(i).key);
        }
    }
}

// Colors and black heights.
impl<T: OrderedKey> RBTree<T> {
    /// What the node at `i` adds to the black height of its paths.
    spec fn blk(&self, i: usize) -> nat {
        if self.is_black(i) {
            1
        } else {
            0
        }
    }

    /// Black height that the child link `c` contributes to its parent under
    /// the suspended rules `rx`.
    spec fn eff_bh(&self, c: Option<usize>, rx: Relax) -> nat {
        match c {
            None => 0,
            Some(i) => (if rx.doomed == c {
                0nat
            } else {
                self.nt(i).bh
            }) + (if rx.short == c {
                1nat
            } else {
                0nat
            }),
        }
    }

    /// The child link `c` may hang below a red node.
    spec fn kid_black(&self, c: Option<usize>, rx: Relax) -> bool {
        match c {
            None => true,
            Some(i) => self.is_black(i) || rx.redred == c,
        }
    }

    /// The color rules at the live node `i`: both sides have the recorded
    /// black height, and a red node has no red child.
    spec fn color_ok(&self, i: usize, rx: Relax) -> bool {
        let n = self.nd(i);
        &&& self.nt(i).bh == self.eff_bh(n.left, rx) + self.blk(i)
        &&& self.nt(i).bh == self.eff_bh(n.right, rx) + self.blk(i)
        &&& !self.is_black(i) ==> self.kid_black(n.left, rx) && self.kid_black(n.right, rx)
    }

    /// The color rules at every node, but for what `rx` suspends.
    spec fn colors_ok(&self, rx: Relax) -> bool {
        &&& self.root matches Some(r) ==> self.is_black(r) || rx.redred == Some(r)
        &&& forall|i: usize| self.live(i) ==> #[trigger] self.color_ok(i, rx)
        &&& rx.doomed matches Some(d) ==> self.live(d) && self.nd(d).left is None && self.nd(
            d,
        ).right is None && self.is_black(d) && self.nd(d).parent is Some
    }

    /// The color of the node at `node`.
    fn _return_color(&self, node: usize) -> (c: NodeColor)
        requires
            node < self.nodes@.len(),
        ensures
            c == self.nd(node).color,
    {
        self.nodes[node].color
    }

    /// Sets the color of the node at `node`.
    fn _change_color(&mut self, node: usize, color: NodeColor)
        requires
            node < old(self).nodes@.len(),
        ensures
            final(self).nodes@ == old(self).nodes@.update(
                node as int,
                RBTreeNode { color: color, ..old(self).nodes@[node as int] },
            ),
            final(self).root == old(self).root,
            final(self).free == old(self).free,
            final(self).notes == old(self).notes,
    {
        self.nodes[node].color = color;
    }

    /// Whether `node` has a parent and that parent is red.
    fn _is_parent_red(&self, node: usize) -> (r: bool)
        requires
            node < self.nodes@.len(),
            self.nd(node).parent matches Some(p) ==> p < self.nodes@.len(),
        ensures
            r == (self.nd(node).parent matches Some(p) && !self.is_black(p)),
    {
        match self.nodes[node].parent {
            None => false,
            Some(x) => self.nodes[x].color == NodeColor::Red,
        }
    }

    /// No recorded black height of a node exceeds `b`.
    spec fn bh_below(&self, b: nat) -> bool {
        forall|i: usize| self.live(i) ==> (#[trigger] self.nt(i)).bh <= b
    }

    /// The largest recorded black height among the first `n` places.
    spec fn bh_max(&self, n: nat) -> nat
        decreases n,
    {
        if n == 0 {
            0
        } else {
            let m = self.bh_max((n - 1) as nat);
            let b = self.notes@[n - 1].bh;
            if b > m {
                b
            } else {
                m
            }
        }
    }

    /// No recorded black height among the first `n` places exceeds
    /// `bh_max(n)`.
    proof fn lemma_bh_max(&self, n: nat, i: usize)
        requires
            i < n,
        ensures
            self.nt(i).bh <= self.bh_max(n),
        decreases n,
    {
        if i < n - 1 {
            self.lemma_bh_max((n - 1) as nat, i);
        }
    }

    /// `post` has the colors and recorded black heights of `pre`, but at
    /// the nodes named by `a`, `b` and `c`, the first of them that names a
    /// node deciding.
    spec fn dyed(pre: &Self, post: &Self, a: Dye, b: Dye, c: Dye) -> bool {
        &&& forall|i: usize|
            i < pre.nodes@.len() ==> (#[trigger] post.nd(i)).color == (if i == a.at {
                a.color
            } else if i == b.at {
                b.color
            } else if i == c.at {
                c.color
            } else {
                pre.nd(i).color
            })
        &&& forall|i: usize|
            i < pre.nodes@.len() ==> (#[trigger] post.nt(i)).bh == (if i == a.at {
                a.bh
            } else if i == b.at {
                b.bh
            } else if i == c.at {
                c.bh
            } else {
                pre.nt(i).bh
            })
    }

    /// Sets the color of `i`, and records the black height `bh` for it.
    fn paint(&mut self, i: usize, color: NodeColor, Ghost(bh): Ghost<nat>)
        requires
            i < old(self).nodes@.len(),
            old(self).nodes@.len() == old(self).notes@.len(),
        ensures
            Self::same_links(old(self), final(self)),
            Self::dyed(
                old(self),
                final(self),
                Dye { at: i, color: color, bh: bh },
                Dye { at: i, color: color, bh: bh },
                Dye { at: i, color: color, bh: bh },
            ),
    {
        self._change_color(i, color);
        proof {
            self.notes@ = self.notes@.update(i as int, Note { bh: bh, ..self.notes@[i as int] });
        }
    }

    /// Records the black height `bh` for the node `i`.
    fn note_bh(&mut self, i: usize, Ghost(bh): Ghost<nat>)
        requires
            i < old(self).nodes@.len(),
            old(self).nodes@.len() == old(self).notes@.len(),
        ensures
            Self::same_links(old(self), final(self)),
            Self::dyed(
                old(self),
                final(self),
                Dye { at: i, color: old(self).nd(i).color, bh: bh },
                Dye { at: i, color: old(self).nd(i).color, bh: bh },
                Dye { at: i, color: old(self).nd(i).color, bh: bh },
            ),
    {
        proof {
            self.notes@ = self.notes@.update(i as int, Note { bh: bh, ..self.notes@[i as int] });
        }
    }

    /// A repainting after another one or two: together they repaint up to
    /// three nodes.
    proof fn lemma_dye_dye(pre: &Self, mid: &Self, post: &Self, a: Dye, b: Dye, n: Dye)
        requires
            mid.nodes@.len() == pre.nodes@.len(),
            Self::dyed(pre, mid, a, b, b),
            Self::dyed(mid, post, n, n, n),
        ensures
            Self::dyed(pre, post, n, a, b),
    {
        assert forall|i: usize| i < pre.nodes@.len() implies (#[trigger] post.nd(i)).color == (if i
            == n.at {
            n.color
        } else if i == a.at {
            a.color
        } else if i == b.at {
            b.color
        } else {
            pre.nd(i).color
        }) by {
            assert(mid.nd(i).color == mid.nd(i).color);
        }
        assert forall|i: usize| i < pre.nodes@.len() implies (#[trigger] post.nt(i)).bh == (if i
            == n.at {
            n.bh
        } else if i == a.at {
            a.bh
        } else if i == b.at {
            b.bh
        } else {
            pre.nt(i).bh
        }) by {
            assert(mid.nt(i).bh == mid.nt(i).bh);
        }
    }

    /// A rotation leaves the colors and the recorded black heights as the
    /// repaintings before it set them.
    proof fn lemma_dye_keep(
        pre: &Self,
        mid: &Self,
        post: &Self,
        a: Dye,
        b: Dye,
        c: Dye,
        x: usize,
        dir: bool,
    )
        requires
            mid.nodes@.len() == pre.nodes@.len(),
            Self::dyed(pre, mid, a, b, c),
            Self::rotated(mid, post, x, dir),
        ensures
            Self::dyed(pre, post, a, b, c),
    {
        assert forall|i: usize| i < pre.nodes@.len() implies (#[trigger] post.nd(i)).color == (if i
            == a.at {
            a.color
        } else if i == b.at {
            b.color
        } else if i == c.at {
            c.color
        } else {
            pre.nd(i).color
        }) by {
            assert(mid.nd(i).color == mid.nd(i).color);
        }
        assert forall|i: usize| i < pre.nodes@.len() implies (#[trigger] post.nt(i)).bh == (if i
            == a.at {
            a.bh
        } else if i == b.at {
            b.bh
        } else if i == c.at {
            c.bh
        } else {
            pre.nt(i).bh
        }) by {
            assert(mid.nt(i).bh == mid.nt(i).bh);
        }
    }
}

// The tree that the links stand for.
impl<T: OrderedKey> RBTree<T> {
    /// The measure that decreases from a node to its children.
    spec fn rk(&self, link: Option<usize>) -> nat {
        match link {
            None => 0,
            Some(i) => if i < self.nodes@.len() {
                2 * self.nt(i).bh + (if self.is_black(i) {
                    0nat
                } else {
                    1nat
                }) + 1
            } else {
                0
            },
        }
    }

    /// The measure gets smaller from the node at `i` to its children.
    spec fn descends(&self, i: usize) -> bool {
        &&& i < self.nodes@.len()
        &&& self.rk(self.nd(i).left) < self.rk(Some(i))
        &&& self.rk(self.nd(i).right) < self.rk(Some(i))
    }

    /// The tree below `link`, each key with the color of its node.
    spec fn painted(&self, link: Option<usize>) -> Shape<(T, NodeColor)>
        decreases self.rk(link),
    {
        match link {
            None => Shape::Nil,
            Some(i) => if self.descends(i) {
                Shape::Node {
                    left: Box::new(self.painted(self.nd(i).left)),
                    item: (self.nd(i).key, self.nd(i).color),
                    right: Box::new(self.painted(self.nd(i).right)),
                }
            } else {
                Shape::Nil
            },
        }
    }

    /// In a valid tree the children of a node are nodes of the tree with a
    /// smaller measure.
    proof fn lemma_descend(&self, i: usize)
        requires
            self.structure_ok(),
            self.colors_ok(strict()),
            self.live(i),
        ensures
            self.descends(i),
            self.nd(i).left matches Some(l) ==> self.live(l),
            self.nd(i).right matches Some(r) ==> self.live(r),
    {
        assert(self.link_ok(i));
        assert(self.color_ok(i, strict()));
        if let Some(l) = self.nd(i).left {
            assert(self.color_ok(l, strict()));
        }
        if let Some(r) = self.nd(i).right {
            assert(self.color_ok(r, strict()));
        }
    }

    /// Below a node of a valid tree stands a tree that keeps the color rules,
    /// has the recorded black height and is ordered within the recorded
    /// bounds.
    proof fn lemma_painted(&self, i: usize)
        requires
            self.structure_ok(),
            self.colors_ok(strict()),
            self.live(i),
        ensures
            ({
                let s = self.painted(Some(i));
                &&& s is Node
                &&& s->item == (self.nd(i).key, self.nd(i).color)
                &&& s->left == self.painted(self.nd(i).left)
                &&& s->right == self.painted(self.nd(i).right)
                &&& s.black_height() == self.nt(i).bh
                &&& s.black_balanced()
                &&& s.no_red_red()
                &&& s.unpainted().ordered_within(self.nt(i).lo, self.nt(i).hi)
            }),
        decreases self.rk(Some(i)),
    {
        self.lemma_descend(i);
        assert(self.link_ok(i));
        assert(self.color_ok(i, strict()));
        if let Some(l) = self.nd(i).left {
            self.lemma_painted(l);
        }
        if let Some(r) = self.nd(i).right {
            self.lemma_painted(r);
        }
        let s = self.painted(Some(i));
        let ls = self.painted(self.nd(i).left);
        let rs = self.painted(self.nd(i).right);
        assert(s is Node);
        assert(s->left == ls);
        assert(s->right == rs);
        assert(ls.black_height() == self.eff_bh(self.nd(i).left, strict()));
        assert(rs.black_height() == self.eff_bh(self.nd(i).right, strict()));
        assert(s.black_height() == self.nt(i).bh);
        assert(ls.black_balanced() && rs.black_balanced());
        assert(s.black_balanced());
        assert(ls.no_red_red() && rs.no_red_red());
        assert(s.no_red_red());
        assert(ls.unpainted().ordered_within(self.nt(i).lo, Some(self.kr(i))));
        assert(rs.unpainted().ordered_within(Some(self.kr(i)), self.nt(i).hi));
        assert(s.unpainted().ordered_within(self.nt(i).lo, self.nt(i).hi));
    }

    /// A bound on the measure of every node.
    spec fn top(&self) -> nat {
        2 * self.bh_max(self.nodes@.len()) + 2
    }

    /// The measure of no node exceeds `top`.
    proof fn lemma_top(&self, i: usize)
        requires
            i < self.nodes@.len(),
        ensures
            self.rk(Some(i)) <= self.top(),
    {
        self.lemma_bh_max(self.nodes@.len(), i);
    }

    /// The places of the nodes below `link`.
    spec fn members(&self, link: Option<usize>) -> Set<usize>
        decreases self.rk(link),
    {
        match link {
            None => Set::empty(),
            Some(i) => if self.descends(i) {
                self.members(self.nd(i).left).union(self.members(self.nd(i).right)).insert(i)
            } else {
                Set::empty()
            },
        }
    }

    /// Some node of the tree holds the key `k`.
    spec fn has_key(&self, k: T) -> bool {
        exists|j: usize| self.live(j) && (#[trigger] self.nd(j)).key == k
    }

    /// The nodes below a node are nodes of the tree, their keys lie within
    /// the bounds recorded for the node, and they hold exactly the keys of
    /// the tree below it.
    proof fn lemma_members(&self, i: usize)
        requires
            self.structure_ok(),
            self.colors_ok(strict()),
            self.live(i),
        ensures
            self.members(Some(i)) == self.members(self.nd(i).left).union(
                self.members(self.nd(i).right),
            ).insert(i),
            forall|j: usize| #[trigger]
                self.members(Some(i)).contains(j) ==> self.live(j) && above(
                    self.nt(i).lo,
                    self.kr(j),
                ) && below(self.nt(i).hi, self.kr(j)) && self.painted(
                    Some(i),
                ).unpainted().items().contains(self.nd(j).key),
            forall|k: T| #[trigger]
                self.painted(Some(i)).unpainted().items().contains(k) ==> exists|j: usize|
                    self.members(Some(i)).contains(j) && (#[trigger] self.nd(j)).key == k,
        decreases self.rk(Some(i)),
    {
        self.lemma_descend(i);
        self.lemma_painted(i);
        assert(self.link_ok(i));
        let left = self.nd(i).left;
        let right = self.nd(i).right;
        if let Some(l) = left {
            self.lemma_members(l);
            assert(self.link_ok(l));
        }
        if let Some(r) = right {
            self.lemma_members(r);
            assert(self.link_ok(r));
        }
        let s = self.painted(Some(i)).unpainted();
        let ls = self.painted(left).unpainted();
        let rs = self.painted(right).unpainted();
        assert(s.items() == ls.items().union(rs.items()).insert(self.nd(i).key));
        assert(self.members(None) == Set::<usize>::empty());
        assert(self.painted(None).unpainted().items() == Set::<T>::empty());
        assert forall|j: usize| #[trigger] self.members(Some(i)).contains(j) implies self.live(j)
            && above(self.nt(i).lo, self.kr(j)) && below(self.nt(i).hi, self.kr(j))
            && s.items().contains(self.nd(j).key) by {
            if j == i {
            } else if self.members(left).contains(j) {
            } else {
                assert(self.members(right).contains(j));
            }
        }
        assert forall|k: T| #[trigger] s.items().contains(k) implies exists|j: usize|
            self.members(Some(i)).contains(j) && (#[trigger] self.nd(j)).key == k by {
            if k == self.nd(i).key {
                assert(self.members(Some(i)).contains(i) && self.nd(i).key == k);
            } else if ls.items().contains(k) {
                let j = choose|j: usize|
                    self.members(left).contains(j) && (#[trigger] self.nd(j)).key == k;
                assert(self.members(Some(i)).contains(j) && self.nd(j).key == k);
            } else {
                assert(rs.items().contains(k));
                let j = choose|j: usize|
                    self.members(right).contains(j) && (#[trigger] self.nd(j)).key == k;
                assert(self.members(Some(i)).contains(j) && self.nd(j).key == k);
            }
        }
    }

    /// Every node of the tree lies below the root, with all nodes below it.
    proof fn lemma_member_up(&self, j: usize)
        requires
            self.structure_ok(),
            self.colors_ok(strict()),
            self.live(j),
        ensures
            self.members(Some(j)).contains(j),
            forall|m: usize| #[trigger]
                self.members(Some(j)).contains(m) ==> self.members(self.root).contains(m),
        decreases self.top() - self.rk(Some(j)),
    {
        self.lemma_members(j);
        assert(self.link_ok(j));
        if let Some(p) = self.nd(j).parent {
            self.lemma_descend(p);
            self.lemma_top(p);
            self.lemma_members(p);
            self.lemma_member_up(p);
            assert forall|m: usize| #[trigger] self.members(Some(j)).contains(m) implies self.members(
                self.root,
            ).contains(m) by {
                assert(self.members(Some(p)).contains(m));
            }
        }
    }

    /// A node of the tree whose key lies within the bounds recorded for the
    /// node `c` lies below `c`.
    proof fn lemma_capture(&self, c: usize)
        requires
            self.structure_ok(),
            self.colors_ok(strict()),
            self.live(c),
        ensures
            forall|j: usize|
                self.live(j) && above(self.nt(c).lo, self.kr(j)) && below(
                    self.nt(c).hi,
                    self.kr(j),
                ) ==> #[trigger] self.members(Some(c)).contains(j),
        decreases self.top() - self.rk(Some(c)),
    {
        assert(self.link_ok(c));
        assert forall|j: usize|
            self.live(j) && above(self.nt(c).lo, self.kr(j)) && below(
                self.nt(c).hi,
                self.kr(j),
            ) implies #[trigger] self.members(Some(c)).contains(j) by {
            self.lemma_member_up(j);
            match self.nd(c).parent {
                None => {},
                Some(p) => {
                    self.lemma_descend(p);
                    self.lemma_top(p);
                    self.lemma_members(p);
                    self.lemma_capture(p);
                    assert(self.link_ok(p));
                    assert(self.members(Some(p)).contains(j));
                    if let Some(l) = self.nd(p).left {
                        self.lemma_members(l);
                    }
                    if let Some(r) = self.nd(p).right {
                        self.lemma_members(r);
                    }
                    assert(self.members(None) == Set::<usize>::empty());
                },
            }
        }
    }

    /// No two nodes of the tree hold keys of the same rank.
    proof fn lemma_unique(&self, i: usize, j: usize)
        requires
            self.structure_ok(),
            self.colors_ok(strict()),
            self.live(i),
            self.live(j),
            self.kr(i) == self.kr(j),
        ensures
            i == j,
    {
        assert(self.link_ok(i));
        self.lemma_capture(i);
        assert(self.members(Some(i)).contains(j));
        self.lemma_members(i);
        if let Some(l) = self.nd(i).left {
            self.lemma_members(l);
        }
        if let Some(r) = self.nd(i).right {
            self.lemma_members(r);
        }
        assert(self.members(None) == Set::<usize>::empty());
    }

    /// The keys of the tree are the keys held by its nodes.
    proof fn lemma_items_keys(&self)
        requires
            self.structure_ok(),
            self.colors_ok(strict()),
        ensures
            forall|k: T| #[trigger]
                self.painted(self.root).unpainted().items().contains(k) <==> self.has_key(k),
    {
        let s = self.painted(self.root).unpainted();
        assert forall|k: T| s.items().contains(k) <==> self.has_key(k) by {
            match self.root {
                None => {
                    if self.has_key(k) {
                        let j = choose|j: usize| self.live(j) && (#[trigger] self.nd(j)).key == k;
                        assert(false);
                    }
                },
                Some(r) => {
                    self.lemma_members(r);
                    if s.items().contains(k) {
                        let j = choose|j: usize|
                            self.members(Some(r)).contains(j) && (#[trigger] self.nd(j)).key == k;
                        assert(self.live(j) && self.nd(j).key == k);
                    }
                    if self.has_key(k) {
                        let j = choose|j: usize| self.live(j) && (#[trigger] self.nd(j)).key == k;
                        self.lemma_member_up(j);
                        assert(self.members(Some(r)).contains(j));
                    }
                },
            }
        }
    }

    /// Next to a node without a child on one side, no key of the tree lies
    /// between the key of the node and its recorded bound on that side.
    proof fn lemma_gap(&self, r: usize, j: usize)
        requires
            self.structure_ok(),
            self.colors_ok(strict()),
            self.live(r),
            self.live(j),
        ensures
            self.nd(r).right is None && self.kr(r) < self.kr(j) ==> !below(
                self.nt(r).hi,
                self.kr(j),
            ),
            self.nd(r).left is None && self.kr(j) < self.kr(r) ==> !above(
                self.nt(r).lo,
                self.kr(j),
            ),
    {
        assert(self.link_ok(r));
        self.lemma_capture(r);
        self.lemma_members(r);
        if let Some(l) = self.nd(r).left {
            self.lemma_members(l);
        }
        if let Some(rr) = self.nd(r).right {
            self.lemma_members(rr);
        }
        assert(self.members(None) == Set::<usize>::empty());
        if self.nd(r).right is None && self.kr(r) < self.kr(j) && below(self.nt(r).hi, self.kr(j)) {
            assert(self.members(Some(r)).contains(j));
            assert(false);
        }
        if self.nd(r).left is None && self.kr(j) < self.kr(r) && above(self.nt(r).lo, self.kr(j)) {
            assert(self.members(Some(r)).contains(j));
            assert(false);
        }
    }
}

// The tree as a value while the rules are suspended.
impl<T: OrderedKey> RBTree<T> {
    /// What the links of the node `i` show: its key and color, and the keys
    /// of its children, but for the leaf `d`, which counts as absent.
    spec fn shows(&self, i: usize, d: Option<usize>) -> Glimpse<T> {
        Glimpse {
            item: (self.nd(i).key, self.nd(i).color),
            left: match self.nd(i).left {
                Some(l) => if d == Some(l) {
                    None
                } else {
                    Some(self.nd(l).key)
                },
                None => None,
            },
            right: match self.nd(i).right {
                Some(r) => if d == Some(r) {
                    None
                } else {
                    Some(self.nd(r).key)
                },
                None => None,
            },
        }
    }

    /// The tree `m` holds the node `i` with the children that its links show.
    spec fn tracks(&self, m: Shape<(T, NodeColor)>, i: usize, d: Option<usize>) -> bool {
        &&& m.find(self.nd(i).key) is Node
        &&& m.find(self.nd(i).key).glimpse() == self.shows(i, d)
    }

    /// The tree `m` is what the nodes and their links stand for, but for
    /// the leaf `d`, which counts as absent.
    spec fn modeled(&self, m: Shape<(T, NodeColor)>, d: Option<usize>) -> bool {
        &&& m.sorted_within(None, None)
        &&& m.root_key() == (match self.root {
            Some(r) => Some(self.nd(r).key),
            None => None,
        })
        &&& d matches Some(dd) ==> self.live(dd) && self.root != d && self.nd(dd).left is None
            && self.nd(dd).right is None
        &&& forall|i: usize| self.live(i) && Some(i) != d ==> #[trigger] self.tracks(m, i, d)
        &&& forall|i: usize, j: usize|
            self.live(i) && self.live(j) && #[trigger] self.kr(i) == #[trigger] self.kr(j) ==> i
                == j
    }

    /// Below a node of a valid tree, each node is found by its key.
    proof fn lemma_find_member(&self, c: usize, i: usize)
        requires
            self.structure_ok(),
            self.colors_ok(strict()),
            self.live(c),
            self.members(Some(c)).contains(i),
        ensures
            self.painted(Some(c)).find(self.nd(i).key) == self.painted(Some(i)),
        decreases self.rk(Some(c)),
    {
        self.lemma_descend(c);
        self.lemma_painted(c);
        self.lemma_members(c);
        assert(self.link_ok(c));
        if i == c {
        } else {
            if let Some(l) = self.nd(c).left {
                self.lemma_members(l);
                if self.members(Some(l)).contains(i) {
                    self.lemma_find_member(l, i);
                }
            }
            if let Some(r) = self.nd(c).right {
                self.lemma_members(r);
                if self.members(Some(r)).contains(i) {
                    self.lemma_find_member(r, i);
                }
            }
            assert(self.members(None) == Set::<usize>::empty());
        }
    }

    /// A valid tree is modeled by the tree that it stands for.
    proof fn lemma_modeled(&self)
        requires
            self.structure_ok(),
            self.colors_ok(strict()),
        ensures
            self.modeled(self.painted(self.root), None),
    {
        let m = self.painted(self.root);
        match self.root {
            None => {},
            Some(r) => {
                self.lemma_painted(r);
                m.lemma_sorted(None, None);
            },
        }
        assert forall|i: usize| self.live(i) implies #[trigger] self.tracks(m, i, None) by {
            let r = self.root->0;
            self.lemma_member_up(i);
            self.lemma_find_member(r, i);
            self.lemma_painted(i);
            assert(self.link_ok(i));
            if let Some(l) = self.nd(i).left {
                self.lemma_painted(l);
            }
            if let Some(rr) = self.nd(i).right {
                self.lemma_painted(rr);
            }
        }
        assert forall|i: usize, j: usize|
            self.live(i) && self.live(j) && #[trigger] self.kr(i) == #[trigger] self.kr(
                j,
            ) implies i == j by {
            self.lemma_unique(i, j);
        }
    }

    /// In a valid tree with the model `m`, the tree below each node is the
    /// subtree that `m` holds at the key of the node.
    proof fn lemma_model_below(&self, m: Shape<(T, NodeColor)>, i: usize)
        requires
            self.structure_ok(),
            self.colors_ok(strict()),
            self.modeled(m, None),
            self.live(i),
        ensures
            self.painted(Some(i)) == m.find(self.nd(i).key),
        decreases self.rk(Some(i)),
    {
        self.lemma_descend(i);
        self.lemma_painted(i);
        assert(self.link_ok(i));
        assert(self.tracks(m, i, None));
        let s = m.find(self.nd(i).key);
        m.lemma_find(self.nd(i).key, None, None);
        s.lemma_children(None, None);
        if let Some(l) = self.nd(i).left {
            self.lemma_model_below(m, l);
            assert(self.link_ok(l));
            assert(s.lhs().find(self.nd(l).key) == s.lhs());
            assert(s.find(self.nd(l).key) == s.lhs());
            m.lemma_find_below(self.nd(i).key, self.nd(l).key, None, None);
        }
        if let Some(r) = self.nd(i).right {
            self.lemma_model_below(m, r);
            assert(self.link_ok(r));
            assert(s.rhs().find(self.nd(r).key) == s.rhs());
            assert(s.find(self.nd(r).key) == s.rhs());
            m.lemma_find_below(self.nd(i).key, self.nd(r).key, None, None);
        }
    }

    /// A valid tree stands for its model.
    proof fn lemma_model_painted(&self, m: Shape<(T, NodeColor)>)
        requires
            self.structure_ok(),
            self.colors_ok(strict()),
            self.modeled(m, None),
        ensures
            self.painted(self.root) == m,
    {
        match self.root {
            None => {},
            Some(r) => {
                self.lemma_model_below(m, r);
            },
        }
    }

    /// The subtree that the model holds at a child of a node is the child
    /// subtree of the subtree at the node.
    proof fn lemma_model_child(
        &self,
        m: Shape<(T, NodeColor)>,
        i: usize,
        left: bool,
        d: Option<usize>,
    )
        requires
            self.structure_ok(),
            self.modeled(m, d),
            self.live(i),
            Some(i) != d,
            self.kid(i, left) is Some,
            self.kid(i, left) != d,
        ensures
            m.find(self.nd(self.kid(i, left)->0).key) == m.find(self.nd(i).key).kid(left),
            m.find(self.nd(i).key).find(self.nd(self.kid(i, left)->0).key) is Node,
    {
        let c = self.kid(i, left)->0;
        assert(self.link_ok(i));
        assert(self.link_ok(c));
        assert(self.tracks(m, i, d));
        let s = m.find(self.nd(i).key);
        m.lemma_find(self.nd(i).key, None, None);
        s.lemma_children(None, None);
        if left {
            assert(s.lhs().find(self.nd(c).key) == s.lhs());
            assert(s.find(self.nd(c).key) == s.lhs());
        } else {
            assert(s.rhs().find(self.nd(c).key) == s.rhs());
            assert(s.find(self.nd(c).key) == s.rhs());
        }
        m.lemma_find_below(self.nd(i).key, self.nd(c).key, None, None);
    }

    /// Painting a node repaints it in the model.
    proof fn lemma_paint_model(
        pre: &Self,
        post: &Self,
        m: Shape<(T, NodeColor)>,
        i: usize,
        c: NodeColor,
        d: Option<usize>,
    )
        requires
            pre.structure_ok(),
            pre.modeled(m, d),
            pre.live(i),
            Some(i) != d,
            Self::same_links(pre, post),
            forall|j: usize|
                j < pre.nodes@.len() ==> (#[trigger] post.nd(j)).color == (if j == i {
                    c
                } else {
                    pre.nd(j).color
                }),
        ensures
            post.modeled(m.repainted(pre.nd(i).key, c), d),
    {
        let k = pre.nd(i).key;
        let after = m.repainted(k, c);
        m.lemma_repainted(k, c, None, None);
        m.lemma_root_key(k, c);
        if let Some(dd) = d {
            assert(post.nt(dd).live == pre.nt(dd).live);
            assert(post.nd(dd).left == pre.nd(dd).left);
        }
        assert forall|j: usize| post.live(j) && Some(j) != d implies #[trigger] post.tracks(
            after,
            j,
            d,
        ) by {
            assert(pre.live(j));
            assert(pre.tracks(m, j, d));
            assert(pre.link_ok(j));
            assert(post.nd(j).key == pre.nd(j).key);
            if let Some(l) = pre.nd(j).left {
                assert(post.nd(l).key == pre.nd(l).key);
            }
            if let Some(r) = pre.nd(j).right {
                assert(post.nd(r).key == pre.nd(r).key);
            }
            if j != i {
                assert(pre.kr(j) != pre.kr(i));
            }
            let s = after.find(pre.nd(j).key);
        }
        assert forall|a: usize, b: usize|
            post.live(a) && post.live(b) && #[trigger] post.kr(a) == #[trigger] post.kr(
                b,
            ) implies a == b by {
            assert(post.nd(a).key == pre.nd(a).key);
            assert(post.nd(b).key == pre.nd(b).key);
            assert(pre.kr(a) == pre.kr(b));
        }
        if let Some(r) = post.root {
            assert(post.nd(r).key == pre.nd(r).key);
        }
    }

    /// A rotation at a node rotates the model at the key of the node.
    #[verifier::rlimit(40)]
    proof fn lemma_turn_model(
        pre: &Self,
        post: &Self,
        m: Shape<(T, NodeColor)>,
        x: usize,
        dir: bool,
        d: Option<usize>,
    )
        requires
            pre.structure_ok(),
            pre.modeled(m, d),
            pre.live(x),
            Some(x) != d,
            pre.kid(x, !dir) is Some,
            pre.kid(x, !dir) != d,
            Self::rotated(pre, post, x, dir),
        ensures
            post.modeled(m.rerooted(pre.nd(x).key, dir), d),
    {
        let y = pre.kid(x, !dir)->0;
        let p = pre.nd(x).parent;
        let c = pre.kid(y, dir);
        let kx = pre.nd(x).key;
        let ky = pre.nd(y).key;
        let after = m.rerooted(kx, dir);
        let g = m.find(kx);
        assert(pre.link_ok(x));
        assert(pre.link_ok(y));
        assert(pre.tracks(m, x, d));
        assert(pre.tracks(m, y, d));
        pre.lemma_model_child(m, x, !dir, d);
        assert(g.riser(dir) == m.find(ky));
        m.lemma_rerooted(kx, dir, None, None);
        m.lemma_find(kx, None, None);
        g.lemma_turned(dir, None, None);
        if let Some(pp) = p {
            assert(pre.link_ok(pp));
        }
        if let Some(cc) = c {
            assert(pre.link_ok(cc));
        }
        if let Some(dd) = d {
            assert(pre.link_ok(dd));
            assert(post.nt(dd).live == pre.nt(dd).live);
        }
        assert(post.tracks(after, x, d)) by {
            assert(post.nd(x).key == kx);
            if let Some(l) = post.nd(x).left {
                assert(post.nd(l).key == pre.nd(l).key);
            }
            if let Some(r) = post.nd(x).right {
                assert(post.nd(r).key == pre.nd(r).key);
            }
        }
        assert(post.tracks(after, y, d)) by {
            assert(post.nd(y).key == ky);
            assert(post.nd(x).key == kx);
            if let Some(l) = post.nd(y).left {
                assert(post.nd(l).key == pre.nd(l).key);
            }
            if let Some(r) = post.nd(y).right {
                assert(post.nd(r).key == pre.nd(r).key);
            }
        }
        assert forall|j: usize| post.live(j) && Some(j) != d implies #[trigger] post.tracks(
            after,
            j,
            d,
        ) by {
            assert(pre.nt(j).live == post.nt(j).live);
            assert(pre.live(j));
            if j != x && j != y {
                assert(pre.tracks(m, j, d));
                assert(pre.link_ok(j));
                let kj = pre.nd(j).key;
                assert(post.nd(j).key == kj);
                assert(pre.kr(j) != pre.kr(x));
                assert(pre.kr(j) != pre.kr(y));
                let s = m.find(kj);
                m.lemma_find(kj, None, None);
                assert(after.find(kj) == s.rerooted(kx, dir));
                s.lhs().lemma_reroot_root(kx, dir);
                s.rhs().lemma_reroot_root(kx, dir);
                if let Some(l) = pre.nd(j).left {
                    assert(pre.link_ok(l));
                    assert(post.nd(l).key == pre.nd(l).key);
                    if Some(l) != d {
                        pre.lemma_model_child(m, j, true, d);
                    }
                    if l != x {
                        assert(pre.kr(l) != pre.kr(x));
                    }
                }
                if let Some(r) = pre.nd(j).right {
                    assert(pre.link_ok(r));
                    assert(post.nd(r).key == pre.nd(r).key);
                    if Some(r) != d {
                        pre.lemma_model_child(m, j, false, d);
                    }
                    if r != x {
                        assert(pre.kr(r) != pre.kr(x));
                    }
                }
                assert(post.nd(y).key == ky);
            }
        }
        assert forall|a: usize, b: usize|
            post.live(a) && post.live(b) && #[trigger] post.kr(a) == #[trigger] post.kr(
                b,
            ) implies a == b by {
            assert(post.nd(a).key == pre.nd(a).key);
            assert(post.nd(b).key == pre.nd(b).key);
            assert(pre.nt(a).live == post.nt(a).live);
            assert(pre.nt(b).live == post.nt(b).live);
            assert(pre.kr(a) == pre.kr(b));
        }
        assert(post.nd(y).key == ky);
        if let Some(r) = pre.root {
            assert(post.nd(r).key == pre.nd(r).key);
            if r != x {
                assert(pre.kr(r) != pre.kr(x));
            }
        }
    }

    /// Recording black heights changes nothing in the model.
    proof fn lemma_notes_model(pre: &Self, post: &Self, m: Shape<(T, NodeColor)>, d: Option<usize>)
        requires
            pre.structure_ok(),
            pre.modeled(m, d),
            Self::same_links(pre, post),
            forall|j: usize|
                j < pre.nodes@.len() ==> (#[trigger] post.nd(j)).color == pre.nd(j).color,
        ensures
            post.modeled(m, d),
    {
        if let Some(dd) = d {
            assert(post.nt(dd).live == pre.nt(dd).live);
            assert(post.nd(dd).left == pre.nd(dd).left);
        }
        assert forall|j: usize| post.live(j) && Some(j) != d implies #[trigger] post.tracks(
            m,
            j,
            d,
        ) by {
            assert(pre.live(j));
            assert(pre.tracks(m, j, d));
            assert(pre.link_ok(j));
            assert(post.nd(j).key == pre.nd(j).key);
            if let Some(l) = pre.nd(j).left {
                assert(post.nd(l).key == pre.nd(l).key);
            }
            if let Some(r) = pre.nd(j).right {
                assert(post.nd(r).key == pre.nd(r).key);
            }
        }
        assert forall|a: usize, b: usize|
            post.live(a) && post.live(b) && #[trigger] post.kr(a) == #[trigger] post.kr(
                b,
            ) implies a == b by {
            assert(post.nd(a).key == pre.nd(a).key);
            assert(post.nd(b).key == pre.nd(b).key);
            assert(pre.kr(a) == pre.kr(b));
        }
        if let Some(r) = post.root {
            assert(post.nd(r).key == pre.nd(r).key);
        }
    }
}

// Search and places.
impl<T: OrderedKey> RBTree<T> {
    /// Descends from the root by comparison. Returns whether `value` is a
    /// key of the tree, with the node that holds it; otherwise the last node
    /// on the way, below which the key would be attached.
    fn search(&self, value: T) -> (r: (bool, Option<usize>))
        requires
            self.wf(),
        ensures
            r.0 == self.shape().items().contains(value),
            r.0 == self.has_key(value),
            r.0 == (self.painted(self.root).find(value) is Node),
            r.0 ==> (r.1 matches Some(i) && self.live(i) && self.nd(i).key == value),
            !r.0 ==> (r.1 matches Some(p) ==> self.painted(self.root).passes(
                value,
                self.nd(p).key,
            )),
            !r.0 ==> match r.1 {
                None => self.root is None,
                Some(p) => self.live(p) && self.kr(p) != value.rank() && self.kid(
                    p,
                    value.rank() < self.kr(p),
                ) is None && above(self.nt(p).lo, value.rank()) && below(
                    self.nt(p).hi,
                    value.rank(),
                ),
            },
    {
        let mut parent: Option<usize> = None;
        let mut child: Option<usize> = self.root;
        proof {
            self.lemma_items_keys();
            self.lemma_modeled();
            if let Some(r) = self.root {
                self.lemma_painted(r);
            }
            if self.painted(self.root).find(value) is Node {
                self.painted(self.root).lemma_found_is_item(value);
            }
            if self.shape().items().contains(value) {
                self.painted(self.root).lemma_item_is_found(value, None, None);
            }
        }
        while child.is_some()
            invariant
                self.structure_ok(),
                self.colors_ok(strict()),
                self.modeled(self.painted(self.root), None),
                child matches Some(c) ==> self.painted(self.root).passes(value, self.nd(c).key),
                parent matches Some(p) ==> self.painted(self.root).passes(value, self.nd(p).key),
                self.shape().items().contains(value) == (self.painted(self.root).find(
                    value,
                ) is Node),
                child matches Some(c) ==> self.live(c) && above(self.nt(c).lo, value.rank())
                    && below(self.nt(c).hi, value.rank()),
                child is None ==> match parent {
                    None => self.root is None,
                    Some(p) => self.live(p) && self.kr(p) != value.rank() && self.kid(
                        p,
                        value.rank() < self.kr(p),
                    ) is None && above(self.nt(p).lo, value.rank()) && below(
                        self.nt(p).hi,
                        value.rank(),
                    ),
                },
                self.painted(self.root).unpainted().items().contains(value) == self.painted(
                    child,
                ).unpainted().items().contains(value),
            decreases self.rk(child),
        {
            let c = child.unwrap();
            parent = child;
            let key = self.nodes[c].key;
            proof {
                self.lemma_painted(c);
                self.lemma_descend(c);
                assert(self.link_ok(c));
                let s = self.painted(Some(c)).unpainted();
                let ls = self.painted(self.nd(c).left).unpainted();
                let rs = self.painted(self.nd(c).right).unpainted();
                assert(s.items() == ls.items().union(rs.items()).insert(key));
                ls.lemma_items_within(self.nt(c).lo, Some(self.kr(c)));
                rs.lemma_items_within(Some(self.kr(c)), self.nt(c).hi);
                assert(self.painted(None).unpainted().items() == Set::<T>::empty());
            }
            proof {
                assert(self.tracks(self.painted(self.root), c, None));
            }
            if value.precedes(&key) {
                assert(!self.painted(self.nd(c).right).unpainted().items().contains(value));
                child = self.nodes[c].left;
                proof {
                    if let Some(l) = child {
                        self.painted(self.root).lemma_passes_child(
                            value,
                            key,
                            self.nd(l).key,
                            None,
                            None,
                        );
                    }
                }
            } else if key.precedes(&value) {
                assert(!self.painted(self.nd(c).left).unpainted().items().contains(value));
                child = self.nodes[c].right;
                proof {
                    if let Some(r) = child {
                        self.painted(self.root).lemma_passes_child(
                            value,
                            key,
                            self.nd(r).key,
                            None,
                            None,
                        );
                    }
                }
            } else {
                proof {
                    T::lemma_rank_injective(value, key);
                }
                return (true, parent);
            }
        }
        (false, parent)
    }

    /// Puts `node` into a place of the store that holds no node of the tree
    /// and returns the place.
    fn place(&mut self, node: RBTreeNode<T>, Ghost(note): Ghost<Note>) -> (i: usize)
        requires
            old(self).structure_ok(),
        ensures
            !old(self).live(i),
            i <= old(self).nodes@.len(),
            i < old(self).nodes@.len() ==> final(self).nodes@ == old(self).nodes@.update(
                i as int,
                node,
            ) && final(self).notes@ == old(self).notes@.update(i as int, note),
            i == old(self).nodes@.len() ==> final(self).nodes@ == old(self).nodes@.push(node)
                && final(self).notes@ == old(self).notes@.push(note),
            final(self).root == old(self).root,
            forall|j: int|
                0 <= j < final(self).free@.len() ==> (#[trigger] final(self).free@[j]) < old(
                    self,
                ).nodes@.len() && final(self).free@[j] != i && !old(self).live(
                    final(self).free@[j],
                ),
            forall|j: int, k: int|
                0 <= j < k < final(self).free@.len() ==> #[trigger] final(self).free@[j]
                    != #[trigger] final(self).free@[k],
    {
        match self.free.pop() {
            Some(i) => {
                assert(i == old(self).free@[old(self).free@.len() - 1]);
                self.nodes[i] = node;
                proof {
                    self.notes@ = self.notes@.update(i as int, note);
                }
                i
            },
            None => {
                let i = self.nodes.len();
                self.nodes.push(node);
                proof {
                    self.notes@ = self.notes@.push(note);
                }
                i
            },
        }
    }

    /// Gives the place `i` back to the store.
    fn release(&mut self, i: usize)
        requires
            i < old(self).nodes@.len(),
            old(self).nodes@.len() == old(self).notes@.len(),
        ensures
            final(self).nodes == old(self).nodes,
            final(self).root == old(self).root,
            final(self).notes@ == old(self).notes@.update(
                i as int,
                Note { live: false, ..old(self).notes@[i as int] },
            ),
            final(self).free@ == old(self).free@.push(i),
    {
        self.free.push(i);
        proof {
            self.notes@ = self.notes@.update(i as int, Note { live: false, ..self.notes@[i as int] });
        }
    }
}

// Insertion.
impl<T: OrderedKey> RBTree<T> {
    /// The red node `child` has a red parent on the side `side` of a
    /// grandparent.
    spec fn red_pair(&self, child: usize, side: bool) -> bool {
        &&& self.live(child)
        &&& !self.is_black(child)
        &&& self.nd(child).parent matches Some(p) && !self.is_black(p) && (self.nd(
            p,
        ).parent matches Some(g) && self.kid(g, side) == Some(p))
    }

    /// The model shows the red pair that the links show, with the color of
    /// the uncle.
    proof fn lemma_red_pair(&self, m: Shape<(T, NodeColor)>, child: usize, side: bool)
        requires
            self.structure_ok(),
            self.colors_ok(rr(child)),
            self.modeled(m, None),
            self.red_pair(child, side),
        ensures
            ({
                let p = self.nd(child).parent->0;
                let g = self.nd(p).parent->0;
                let inner = self.nd(p).left == Some(child);
                let gs = m.find(self.nd(g).key);
                &&& gs.red_pair(self.nd(child).key, side, inner)
                &&& gs->item.0 == self.nd(g).key
                &&& gs.kid(side)->item.0 == self.nd(p).key
                &&& gs.kid(!side).root_is_red() == (self.kid(g, !side) matches Some(u)
                    && !self.is_black(u))
                &&& self.kid(g, !side) matches Some(u) ==> gs.kid(!side)->item.0 == self.nd(u).key
                &&& self.kid(p, inner) == Some(child)
            }),
    {
        let p = self.nd(child).parent->0;
        let g = self.nd(p).parent->0;
        let inner = self.nd(p).left == Some(child);
        assert(self.link_ok(child) && self.color_ok(child, rr(child)));
        assert(self.link_ok(p) && self.color_ok(p, rr(child)));
        assert(self.link_ok(g) && self.color_ok(g, rr(child)));
        assert(self.tracks(m, child, None) && self.tracks(m, p, None) && self.tracks(m, g, None));
        m.lemma_find(self.nd(g).key, None, None);
        self.lemma_model_child(m, g, side, None);
        self.lemma_model_child(m, p, inner, None);
        if let Some(u) = self.kid(g, !side) {
            assert(self.link_ok(u));
            assert(self.tracks(m, u, None));
            self.lemma_model_child(m, g, !side, None);
        }
        if let Some(s) = self.kid(p, !inner) {
            assert(self.link_ok(s) && self.color_ok(s, rr(child)));
            assert(self.tracks(m, s, None));
            self.lemma_model_child(m, p, !inner, None);
        }
        if let Some(c) = self.nd(child).left {
            assert(self.link_ok(c));
            assert(self.tracks(m, c, None));
            self.lemma_model_child(m, child, true, None);
        }
        if let Some(c) = self.nd(child).right {
            assert(self.link_ok(c));
            assert(self.tracks(m, c, None));
            self.lemma_model_child(m, child, false, None);
        }
    }

    /// Red parent and red uncle: both turn black and the grandparent red,
    /// which moves the possible violation two levels up. Returns the
    /// grandparent, and the model after the repaintings.
    fn insert_recolor(
        &mut self,
        child: usize,
        side: bool,
        Ghost(b): Ghost<nat>,
        Ghost(m): Ghost<Shape<(T, NodeColor)>>,
    ) -> (r: (usize, Ghost<Shape<(T, NodeColor)>>))
        requires
            old(self).structure_ok(),
            old(self).colors_ok(rr(child)),
            old(self).red_pair(child, side),
            ({
                let p = old(self).nd(child).parent->0;
                let g = old(self).nd(p).parent->0;
                old(self).kid(g, !side) matches Some(u) && !old(self).is_black(u)
            }),
            old(self).bh_below(b),
            old(self).modeled(m, None),
        ensures
            final(self).structure_ok(),
            final(self).colors_ok(rr(r.0)),
            final(self).live(r.0),
            !final(self).is_black(r.0),
            Self::same_keys(old(self), final(self)),
            final(self).bh_below(b),
            final(self).nt(r.0).bh > old(self).nt(child).bh,
            final(self).modeled(r.1@, None),
            r.1@.climbed(final(self).nd(r.0).key) == m.climbed(old(self).nd(child).key),
    {
        let parent = self.nodes[child].parent.unwrap();
        proof {
            assert(self.link_ok(child));
            assert(self.link_ok(parent));
            assert(self.color_ok(child, rr(child)));
            assert(self.color_ok(parent, rr(child)));
        }
        let grandparent = self.nodes[parent].parent.unwrap();
        proof {
            assert(self.link_ok(grandparent));
            assert(self.color_ok(grandparent, rr(child)));
        }
        let uncle = self.child(grandparent, !side).unwrap();
        proof {
            assert(self.link_ok(uncle));
            assert(self.color_ok(uncle, rr(child)));
            if let Some(gg) = self.nd(grandparent).parent {
                assert(self.link_ok(gg));
                assert(self.color_ok(gg, rr(child)));
            }
            self.lemma_red_pair(m, child, side);
        }
        let ghost kp = self.nd(parent).key;
        let ghost ku = self.nd(uncle).key;
        let ghost kg = self.nd(grandparent).key;
        let ghost dp = Dye { at: parent, color: NodeColor::Black, bh: self.nt(parent).bh + 1 };
        let ghost du = Dye { at: uncle, color: NodeColor::Black, bh: self.nt(uncle).bh + 1 };
        let ghost dg = Dye { at: grandparent, color: NodeColor::Red, bh: self.nt(grandparent).bh };
        self.paint(parent, NodeColor::Black, Ghost(dp.bh));
        let ghost s1 = *self;
        self.paint(uncle, NodeColor::Black, Ghost(du.bh));
        let ghost s2 = *self;
        self.paint(grandparent, NodeColor::Red, Ghost(dg.bh));
        let ghost m1 = m.repainted(kp, NodeColor::Black);
        let ghost m2 = m1.repainted(ku, NodeColor::Black);
        let ghost m3 = m2.repainted(kg, NodeColor::Red);
        proof {
            Self::lemma_links_links(old(self), &s1, &s2);
            Self::lemma_links_links(old(self), &s2, self);
            Self::lemma_dye_dye(old(self), &s1, &s2, dp, dp, du);
            Self::lemma_dye_dye(old(self), &s2, self, du, dp, dg);
            Self::lemma_same_links(old(self), &s1);
            Self::lemma_same_links(old(self), &s2);
            Self::lemma_same_links(old(self), self);
            assert forall|i: usize| self.live(i) implies #[trigger] self.color_ok(
                i,
                rr(grandparent),
            ) by {
                assert(old(self).color_ok(i, rr(child)));
                assert(old(self).link_ok(i));
            }
            assert forall|i: usize| self.live(i) implies (#[trigger] self.nt(i)).bh <= b by {
                assert(old(self).nt(i).bh <= b);
                assert(old(self).nt(grandparent).bh <= b);
            }
            Self::lemma_paint_model(old(self), &s1, m, parent, NodeColor::Black, None);
            assert(s1.nd(uncle).key == ku);
            Self::lemma_paint_model(&s1, &s2, m1, uncle, NodeColor::Black, None);
            assert(s2.nd(grandparent).key == kg);
            Self::lemma_paint_model(&s2, self, m2, grandparent, NodeColor::Red, None);
            m.lemma_recolor_step(kg, old(self).nd(child).key, side, old(self).nd(parent).left == Some(child));
        }
        (grandparent, Ghost(m3))
    }

    /// Red parent, black or absent uncle, and the child on the inner side
    /// of its parent: a rotation at the parent puts the two red nodes in
    /// line. Returns the lower of the two, which is the old parent.
    fn insert_straighten(
        &mut self,
        child: usize,
        side: bool,
        Ghost(m): Ghost<Shape<(T, NodeColor)>>,
    ) -> (low: usize)
        requires
            old(self).structure_ok(),
            old(self).colors_ok(rr(child)),
            old(self).red_pair(child, side),
            old(self).kid(old(self).nd(child).parent->0, !side) == Some(child),
            old(self).modeled(m, None),
        ensures
            final(self).structure_ok(),
            final(self).colors_ok(rr(low)),
            final(self).red_pair(low, side),
            final(self).kid(child, side) == Some(low),
            final(self).nd(low).parent == Some(child),
            Some(low) == old(self).nd(child).parent,
            ({
                let g = old(self).nd(low).parent->0;
                &&& final(self).nd(child).parent == Some(g)
                &&& final(self).kid(g, !side) == old(self).kid(g, !side)
            }),
            Self::same_keys(old(self), final(self)),
            forall|i: usize|
                i < old(self).nodes@.len() ==> (#[trigger] final(self).nd(i)).color == old(
                    self,
                ).nd(i).color,
            final(self).modeled(m.rerooted(old(self).nd(low).key, side), None),
    {
        let parent = self.nodes[child].parent.unwrap();
        proof {
            assert(self.link_ok(child));
            assert(self.link_ok(parent));
            assert(self.color_ok(child, rr(child)));
            assert(self.color_ok(parent, rr(child)));
            let g = self.nd(parent).parent->0;
            assert(self.link_ok(g));
            assert(self.color_ok(g, rr(child)));
            if let Some(c) = self.kid(child, side) {
                assert(self.link_ok(c));
                assert(self.color_ok(c, rr(child)));
            }
        }
        self.rotate(parent, side);
        proof {
            assert forall|i: usize| self.live(i) implies #[trigger] self.color_ok(
                i,
                rr(parent),
            ) by {
                assert(old(self).color_ok(i, rr(child)));
                assert(old(self).link_ok(i));
            }
            Self::lemma_turn_model(old(self), self, m, parent, side, None);
        }
        parent
    }

    /// The color rules hold after the parent of a red pair in line was
    /// lifted into the place of the grandparent.
    #[verifier::rlimit(40)]
    proof fn lemma_promote(pre: &Self, post: &Self, child: usize, side: bool)
        requires
            pre.structure_ok(),
            pre.colors_ok(rr(child)),
            pre.red_pair(child, side),
            pre.kid(pre.nd(child).parent->0, side) == Some(child),
            ({
                let p = pre.nd(child).parent->0;
                let g = pre.nd(p).parent->0;
                &&& pre.kid(g, !side) matches Some(u) ==> pre.is_black(u)
                &&& Self::turned(pre, post, g, !side)
                &&& Self::dyed(
                    pre,
                    post,
                    Dye { at: g, color: NodeColor::Red, bh: pre.nt(p).bh },
                    Dye { at: p, color: NodeColor::Black, bh: pre.nt(g).bh },
                    Dye { at: p, color: NodeColor::Black, bh: pre.nt(g).bh },
                )
            }),
        ensures
            post.colors_ok(strict()),
    {
        let rx = rr(child);
        let p = pre.nd(child).parent->0;
        let g = pre.nd(p).parent->0;
        let gg = pre.nd(g).parent;
        assert(pre.link_ok(child) && pre.color_ok(child, rx));
        assert(pre.link_ok(p) && pre.color_ok(p, rx));
        assert(pre.link_ok(g) && pre.color_ok(g, rx));
        if let Some(q) = gg {
            assert(pre.link_ok(q) && pre.color_ok(q, rx));
        }
        if let Some(u) = pre.kid(g, !side) {
            assert(pre.link_ok(u) && pre.color_ok(u, rx));
        }
        if let Some(c) = pre.kid(p, !side) {
            assert(pre.link_ok(c) && pre.color_ok(c, rx));
        }
        assert(post.color_ok(p, strict()));
        assert(post.color_ok(g, strict()));
        assert(post.color_ok(child, strict()));
        assert forall|i: usize| post.live(i) implies #[trigger] post.color_ok(i, strict()) by {
            assert(pre.live(i));
            assert(pre.color_ok(i, rx));
            assert(pre.link_ok(i));
            if i == p || i == g || i == child {
            } else if Some(i) == gg {
            } else {
                if let Some(l) = pre.nd(i).left {
                    assert(pre.link_ok(l));
                }
                if let Some(r) = pre.nd(i).right {
                    assert(pre.link_ok(r));
                }
            }
        }
    }

    /// Red child and red parent in line below a black grandparent whose
    /// other child is black or absent: the parent turns black, the
    /// grandparent red, and a rotation at the grandparent lifts the parent
    /// into its place.
    fn insert_promote(&mut self, child: usize, side: bool, Ghost(m): Ghost<Shape<(T, NodeColor)>>)
        requires
            old(self).structure_ok(),
            old(self).colors_ok(rr(child)),
            old(self).red_pair(child, side),
            old(self).kid(old(self).nd(child).parent->0, side) == Some(child),
            ({
                let p = old(self).nd(child).parent->0;
                let g = old(self).nd(p).parent->0;
                old(self).kid(g, !side) matches Some(u) ==> old(self).is_black(u)
            }),
            old(self).modeled(m, None),
        ensures
            final(self).structure_ok(),
            final(self).colors_ok(strict()),
            Self::same_keys(old(self), final(self)),
            ({
                let p = old(self).nd(child).parent->0;
                let g = old(self).nd(p).parent->0;
                final(self).modeled(
                    m.repainted(old(self).nd(p).key, NodeColor::Black).repainted(
                        old(self).nd(g).key,
                        NodeColor::Red,
                    ).rerooted(old(self).nd(g).key, !side), None)
            }),
    {
        let parent = self.nodes[child].parent.unwrap();
        proof {
            assert(self.link_ok(child));
            assert(self.link_ok(parent));
            assert(self.color_ok(parent, rr(child)));
        }
        let grandparent = self.nodes[parent].parent.unwrap();
        proof {
            assert(self.link_ok(grandparent));
            if let Some(gg) = self.nd(grandparent).parent {
                assert(self.link_ok(gg));
            }
            if let Some(c) = self.kid(parent, !side) {
                assert(self.link_ok(c));
            }
        }
        let ghost kp = self.nd(parent).key;
        let ghost kg = self.nd(grandparent).key;
        let ghost dp = Dye { at: parent, color: NodeColor::Black, bh: self.nt(grandparent).bh };
        let ghost dg = Dye { at: grandparent, color: NodeColor::Red, bh: self.nt(parent).bh };
        self.paint(parent, NodeColor::Black, Ghost(dp.bh));
        let ghost s1 = *self;
        self.paint(grandparent, NodeColor::Red, Ghost(dg.bh));
        let ghost s2 = *self;
        proof {
            Self::lemma_links_links(old(self), &s1, &s2);
            Self::lemma_dye_dye(old(self), &s1, &s2, dp, dp, dg);
            Self::lemma_same_links(old(self), &s1);
            Self::lemma_same_links(old(self), &s2);
        }
        self.rotate(grandparent, !side);
        proof {
            Self::lemma_links_turn(old(self), &s2, self, grandparent, !side);
            Self::lemma_dye_keep(old(self), &s2, self, dg, dp, dp, grandparent, !side);
            Self::lemma_promote(old(self), self, child, side);
            let m1 = m.repainted(kp, NodeColor::Black);
            let m2 = m1.repainted(kg, NodeColor::Red);
            Self::lemma_paint_model(old(self), &s1, m, parent, NodeColor::Black, None);
            assert(s1.nd(grandparent).key == kg);
            Self::lemma_paint_model(&s1, &s2, m1, grandparent, NodeColor::Red, None);
            assert(s2.nd(grandparent).key == kg);
            Self::lemma_turn_model(&s2, self, m2, grandparent, !side, None);
        }
    }

    /// Restores the color rules after the red node `new_child` was attached:
    /// walks up while the node has a red parent with a red uncle, and ends
    /// with at most two rotations.
    fn _insert_repair(&mut self, new_child: usize, Ghost(m): Ghost<Shape<(T, NodeColor)>>)
        requires
            old(self).structure_ok(),
            old(self).colors_ok(rr(new_child)),
            old(self).live(new_child),
            !old(self).is_black(new_child),
            old(self).modeled(m, None),
        ensures
            final(self).structure_ok(),
            final(self).colors_ok(strict()),
            Self::same_keys(old(self), final(self)),
            final(self).painted(final(self).root) == m.climbed(
                old(self).nd(new_child).key,
            ).with_color(NodeColor::Black),
    {
        let mut child = new_child;
        let ghost b = self.bh_max(self.nodes@.len());
        let ghost mut mc = m;
        let ghost target = m.climbed(self.nd(new_child).key).with_color(NodeColor::Black);
        proof {
            assert forall|i: usize| self.live(i) implies (#[trigger] self.nt(i)).bh <= b by {
                self.lemma_bh_max(self.nodes@.len(), i);
            }
        }
        loop
            invariant
                self.structure_ok(),
                self.colors_ok(rr(child)),
                self.live(child),
                !self.is_black(child),
                Self::same_keys(old(self), self),
                self.bh_below(b),
                self.modeled(mc, None),
                target == m.climbed(old(self).nd(new_child).key).with_color(NodeColor::Black),
                mc.climbed(self.nd(child).key).with_color(NodeColor::Black) == target,
            decreases b - self.nt(child).bh,
        {
            proof {
                assert(self.link_ok(child));
                assert(self.color_ok(child, rr(child)));
            }
            if self.nodes[child].parent.is_none() {
                // The node is the root: a red root turns black.
                let ghost before = *self;
                self.paint(child, NodeColor::Black, Ghost(self.nt(child).bh + 1));
                proof {
                    Self::lemma_same_links(&before, self);
                    assert forall|i: usize| self.live(i) implies #[trigger] self.color_ok(
                        i,
                        strict(),
                    ) by {
                        assert(before.color_ok(i, rr(child)));
                        assert(before.link_ok(i));
                    }
                    Self::lemma_paint_model(&before, self, mc, child, NodeColor::Black, None);
                    let kc = before.nd(child).key;
                    self.lemma_model_painted(mc.repainted(kc, NodeColor::Black));
                    assert(before.root == Some(child));
                    assert(mc.root_key() == Some(kc));
                    assert(mc.climbed(kc) == mc);
                    assert(mc.repainted(kc, NodeColor::Black) == mc.with_color(NodeColor::Black));
                }
                return ;
            }
            if !self._is_parent_red(child) {
                proof {
                    assert forall|i: usize| self.live(i) implies #[trigger] self.color_ok(
                        i,
                        strict(),
                    ) by {
                        assert(self.color_ok(i, rr(child)));
                        assert(self.link_ok(i));
                    }
                    self.lemma_model_painted(mc);
                    let r = self.root->0;
                    assert(self.link_ok(parent_of(self, child)));
                    self.lemma_painted(r);
                    mc.lemma_climbed_valid(self.nd(child).key);
                    assert(mc.with_color(NodeColor::Black) == mc);
                }
                return ;
            }
            let parent = self.nodes[child].parent.unwrap();
            proof {
                assert(self.link_ok(parent));
                assert(self.color_ok(parent, rr(child)));
            }
            // A red parent is not the root, so there is a grandparent.
            let grandparent = self.nodes[parent].parent.unwrap();
            proof {
                assert(self.link_ok(grandparent));
            }
            let parent_left_side = self._is_left_child(parent);
            let uncle = self.child(grandparent, !parent_left_side);
            let uncle_black = match uncle {
                None => true,
                Some(u) => self._return_color(u) == NodeColor::Black,
            };
            if uncle_black {
                let ghost before = *self;
                let ghost inner = self.nd(parent).left == Some(child);
                let ghost kc = self.nd(child).key;
                let ghost kp = self.nd(parent).key;
                let ghost kg = self.nd(grandparent).key;
                proof {
                    self.lemma_red_pair(mc, child, parent_left_side);
                }
                let ghost ms = if inner != parent_left_side {
                    mc.rerooted(kp, parent_left_side)
                } else {
                    mc
                };
                if self._is_left_child(child) != parent_left_side {
                    child = self.insert_straighten(child, parent_left_side, Ghost(mc));
                }
                let ghost mid = *self;
                self.insert_promote(child, parent_left_side, Ghost(ms));
                proof {
                    let top = if inner != parent_left_side {
                        kc
                    } else {
                        kp
                    };
                    assert(mid.nd(mid.nd(child).parent->0).key == top);
                    assert(mid.nd(grandparent).key == kg);
                    let mf = ms.repainted(top, NodeColor::Black).repainted(
                        kg,
                        NodeColor::Red,
                    ).rerooted(kg, !parent_left_side);
                    self.lemma_model_painted(mf);
                    let r = self.root->0;
                    assert(self.live(grandparent));
                    self.lemma_painted(r);
                    assert(mf.no_red_red());
                    mc.lemma_rotate_step(kg, kc, parent_left_side, inner);
                    assert(mf == mc.climbed(kc));
                    assert(mf.with_color(NodeColor::Black) == mf);
                }
                return ;
            } else {
                let ghost kc = self.nd(child).key;
                let (g, Ghost(m3)) = self.insert_recolor(
                    child,
                    parent_left_side,
                    Ghost(b),
                    Ghost(mc),
                );
                child = g;
                proof {
                    mc = m3;
                }
            }
        }
    }

    /// `post` holds the nodes of `pre` with their keys, and the new node
    /// `x` with the key `value`.
    spec fn added(pre: &Self, post: &Self, x: usize, value: T) -> bool {
        &&& !pre.live(x)
        &&& post.live(x)
        &&& post.nd(x).key == value
        &&& forall|i: usize| #[trigger] pre.live(i) ==> post.live(i) && post.nd(i).key == pre.nd(i).key
        &&& forall|i: usize| #[trigger] post.live(i) ==> i == x || pre.live(i)
    }

    /// Attaching a node with a new key adds that key to the keys of the
    /// tree and changes no other.
    proof fn lemma_added_items(pre: &Self, post: &Self, x: usize, value: T)
        requires
            pre.wf(),
            post.wf(),
            Self::added(pre, post, x, value),
        ensures
            post.shape().items() == pre.shape().items().insert(value),
    {
        pre.lemma_items_keys();
        post.lemma_items_keys();
        assert forall|k: T| post.has_key(k) <==> (pre.has_key(k) || k == value) by {
            if post.has_key(k) {
                let j = choose|j: usize| post.live(j) && (#[trigger] post.nd(j)).key == k;
                if j != x {
                    assert(pre.live(j));
                    assert(pre.nd(j).key == k);
                }
            }
            if pre.has_key(k) {
                let j = choose|j: usize| pre.live(j) && (#[trigger] pre.nd(j)).key == k;
                assert(post.live(j) && post.nd(j).key == k);
            }
            if k == value {
                assert(post.live(x) && post.nd(x).key == k);
            }
        }
        assert forall|k: T|
            post.shape().items().contains(k) <==> pre.shape().items().insert(value).contains(
                k,
            ) by {
            assert(post.painted(post.root).unpainted().items().contains(k) <==> post.has_key(k));
            assert(pre.painted(pre.root).unpainted().items().contains(k) <==> pre.has_key(k));
        }
        assert(post.shape().items() =~= pre.shape().items().insert(value));
    }

    /// Makes `value` the black root of an empty tree.
    fn attach_root(&mut self, value: T) -> (x: usize)
        requires
            old(self).wf(),
            old(self).root is None,
        ensures
            final(self).wf(),
            Self::added(old(self), final(self), x, value),
            final(self).painted(final(self).root) == Shape::node(
                Shape::Nil,
                (value, NodeColor::Black),
                Shape::Nil,
            ),
    {
        let mut new_node = RBTreeNode::new(value);
        new_node.color = NodeColor::Black;
        let x = self.place(new_node, Ghost(Note { live: true, lo: None, hi: None, bh: 1 }));
        self.root = Some(x);
        proof {
            assert forall|i: usize| self.live(i) implies i == x by {
                if i != x {
                    assert(old(self).live(i));
                }
            }
            assert(self.link_ok(x));
            assert(self.color_ok(x, strict()));
            self.lemma_painted(x);
            assert(self.painted(None) == Shape::<(T, NodeColor)>::Nil);
        }
        x
    }

    /// Attaches `value` as a red leaf below `p`, on the side where the
    /// order wants it.
    fn attach_leaf(&mut self, p: usize, value: T) -> (x: usize)
        requires
            old(self).wf(),
            old(self).live(p),
            old(self).kr(p) != value.rank(),
            old(self).kid(p, value.rank() < old(self).kr(p)) is None,
            above(old(self).nt(p).lo, value.rank()),
            below(old(self).nt(p).hi, value.rank()),
        ensures
            final(self).structure_ok(),
            final(self).colors_ok(rr(x)),
            !final(self).is_black(x),
            Self::added(old(self), final(self), x, value),
            Self::leafed(old(self), final(self), p, x, value),
    {
        let left = value.precedes(&self.nodes[p].key);
        let mut new_child = RBTreeNode::new(value);
        new_child.parent = Some(p);
        let ghost np = self.nt(p);
        let ghost note = Note {
            live: true,
            lo: if left {
                np.lo
            } else {
                Some(self.kr(p))
            },
            hi: if left {
                Some(self.kr(p))
            } else {
                np.hi
            },
            bh: 0,
        };
        let x = self.place(new_child, Ghost(note));
        // The new node goes on the side that the order wants.
        self.set_child(p, left, Some(x));
        proof {
            assert(old(self).link_ok(p));
            assert(old(self).color_ok(p, strict()));
            assert forall|i: usize| self.live(i) implies #[trigger] self.link_ok(i) by {
                if i != x {
                    assert(old(self).live(i));
                    assert(old(self).link_ok(i));
                }
            }
            assert forall|i: usize| self.live(i) implies #[trigger] self.color_ok(i, rr(x)) by {
                if i != x {
                    assert(old(self).live(i));
                    assert(old(self).color_ok(i, strict()));
                    assert(old(self).link_ok(i));
                }
            }
        }
        x
    }
}

// Repair after a removal.
impl<T: OrderedKey> RBTree<T> {
    /// The double-black repair: the leaf `d`, if any, counts as absent, and
    /// the paths through `x`, if any, lack one black node.
    spec fn dd(d: Option<usize>, x: Option<usize>) -> Relax {
        Relax { redred: None, doomed: d, short: x }
    }

    /// Black height of `x` as its parent will see it after the repair.
    spec fn mass(&self, x: usize, d: Option<usize>) -> nat {
        if d == Some(x) {
            0
        } else {
            self.nt(x).bh
        }
    }

    /// 1 if `x` has a red sibling, else 0.
    spec fn sibling_red(&self, x: usize) -> nat {
        match self.nd(x).parent {
            None => 0,
            Some(p) => match self.kid(p, self.nd(p).left != Some(x)) {
                None => 0,
                Some(s) => if self.is_black(s) {
                    0
                } else {
                    1
                },
            },
        }
    }

    /// Every node with a key between `lo` and `hi` names in `post` the
    /// parent that it named in `pre`.
    spec fn parents_kept(pre: &Self, post: &Self, lo: Option<int>, hi: Option<int>) -> bool {
        forall|j: usize|
            pre.live(j) && above(lo, pre.kr(j)) && below(hi, pre.kr(j)) ==> (#[trigger] post.nd(
                j,
            )).parent == pre.nd(j).parent
    }

    /// A rotation at `x` gives a new parent to `x`, to the child that rises
    /// and to one child of that child. So it leaves the parents alone of
    /// the nodes whose keys lie beside all keys below `x`, or beside the
    /// key of `x` on the side away from the child that rises.
    proof fn lemma_turn_parents(
        pre: &Self,
        post: &Self,
        x: usize,
        dir: bool,
        lo: Option<int>,
        hi: Option<int>,
    )
        requires
            pre.structure_ok(),
            pre.live(x),
            pre.kid(x, !dir) is Some,
            Self::turned(pre, post, x, dir),
            ({
                ||| hi matches Some(h) && ((dir && h <= pre.kr(x)) || (pre.nt(x).lo matches Some(l)
                    && h <= l))
                ||| lo matches Some(l) && ((!dir && pre.kr(x) <= l) || (pre.nt(x).hi matches Some(h)
                    && h <= l))
            }),
        ensures
            Self::parents_kept(pre, post, lo, hi),
    {
        let y = pre.kid(x, !dir)->0;
        assert(pre.link_ok(x));
        assert(pre.link_ok(y));
        if let Some(c) = pre.kid(y, dir) {
            assert(pre.link_ok(c));
        }
        if let Some(pp) = pre.nd(x).parent {
            assert(pre.link_ok(pp));
        }
        assert forall|j: usize|
            pre.live(j) && above(lo, pre.kr(j)) && below(hi, pre.kr(j)) implies (#[trigger] post.nd(
            j,
        )).parent == pre.nd(j).parent by {
            assert(j != x);
            assert(j != y);
            assert(Some(j) != pre.kid(y, dir));
        }
    }

    /// Where two changes in a row keep the parents of the nodes with keys
    /// between two bounds, and the first keeps the nodes and their keys,
    /// both together keep those parents.
    proof fn lemma_parents_kept(
        pre: &Self,
        mid: &Self,
        post: &Self,
        lo: Option<int>,
        hi: Option<int>,
    )
        requires
            Self::same_keys(pre, mid),
            Self::parents_kept(pre, mid, lo, hi),
            Self::parents_kept(mid, post, lo, hi),
        ensures
            Self::parents_kept(pre, post, lo, hi),
    {
        assert forall|j: usize|
            pre.live(j) && above(lo, pre.kr(j)) && below(hi, pre.kr(j)) implies (#[trigger] post.nd(
            j,
        )).parent == pre.nd(j).parent by {
            assert(mid.live(j));
            assert(mid.nd(j).key == pre.nd(j).key);
            assert(mid.nd(j).parent == pre.nd(j).parent);
        }
    }

    /// The black node `x` is the child on the side `near` of its parent,
    /// and the paths through `x` lack one black node.
    spec fn short_at(&self, x: usize, near: bool, d: Option<usize>) -> bool {
        &&& self.structure_ok()
        &&& self.colors_ok(Self::dd(d, Some(x)))
        &&& self.live(x)
        &&& self.is_black(x)
        &&& self.nd(x).parent matches Some(p) && self.kid(p, near) == Some(x)
    }

    /// The other child of the parent of `node`.
    fn _return_node_same_level(&self, node: usize) -> (r: Option<usize>)
        requires
            node < self.nodes@.len(),
            self.nd(node).parent matches Some(p) ==> p < self.nodes@.len(),
        ensures
            r == (match self.nd(node).parent {
                None => None,
                Some(p) => self.kid(p, self.nd(p).left != Some(node)),
            }),
    {
        match self.nodes[node].parent {
            Some(p) => {
                if self._is_left_child(node) {
                    self.nodes[p].right
                } else {
                    self.nodes[p].left
                }
            },
            None => None,
        }
    }

    /// Whether `node` has a red child.
    fn _has_red_child(&self, node: usize) -> (r: bool)
        requires
            node < self.nodes@.len(),
            self.nd(node).left matches Some(l) ==> l < self.nodes@.len(),
            self.nd(node).right matches Some(l) ==> l < self.nodes@.len(),
        ensures
            r == ((self.nd(node).left matches Some(l) && !self.is_black(l)) || (self.nd(
                node,
            ).right matches Some(l) && !self.is_black(l))),
    {
        let condition_one: bool = match self.nodes[node].left {
            Some(l) => self._return_color(l) == NodeColor::Red,
            None => false,
        };
        let condition_two: bool = match self.nodes[node].right {
            Some(r) => self._return_color(r) == NodeColor::Red,
            None => false,
        };
        condition_one || condition_two
    }

    /// The model shows what the links show around a node whose paths lack
    /// a black node: its parent with the color, the sibling with the colors
    /// of its children, and the node above the parent.
    proof fn lemma_short_pair(
        &self,
        m: Shape<(T, NodeColor)>,
        x: usize,
        near: bool,
        d: Option<usize>,
    )
        requires
            self.short_at(x, near, d),
            self.modeled(m, d),
        ensures
            ({
                let p = self.nd(x).parent->0;
                let g = m.find(self.nd(p).key);
                let ss = self.kid(p, !near)->0;
                let s = g.kid(!near);
                let sl = self.nd(ss).left;
                let sr = self.nd(ss).right;
                &&& Some(p) != d
                &&& g is Node
                &&& g->item == (self.nd(p).key, self.nd(p).color)
                &&& self.kid(p, !near) is Some
                &&& Some(ss) != d
                &&& s is Node
                &&& s->item == (self.nd(ss).key, self.nd(ss).color)
                &&& s.lhs().root_is_red() == (sl is Some && !self.is_black(sl->0))
                &&& s.rhs().root_is_red() == (sr is Some && !self.is_black(sr->0))
                &&& sl is Some && !self.is_black(sl->0) ==> sl != d && s.lhs()->item.0 == self.nd(
                    sl->0,
                ).key
                &&& sr is Some && !self.is_black(sr->0) ==> sr != d && s.rhs()->item.0 == self.nd(
                    sr->0,
                ).key
                &&& !self.is_black(ss) ==> s.kid(near) is Node && !s.kid(near).root_is_red()
                &&& match self.nd(p).parent {
                    Some(gp) => Some(gp) != d && m.find(self.nd(gp).key) is Node && m.find(
                        self.nd(gp).key,
                    ).kid(self.nd(gp).left == Some(p)).root_key() == Some(self.nd(p).key),
                    None => m.root_key() == Some(self.nd(p).key),
                }
            }),
    {
        let rx = Self::dd(d, Some(x));
        let p = self.nd(x).parent->0;
        assert(self.link_ok(x) && self.color_ok(x, rx));
        assert(self.link_ok(p) && self.color_ok(p, rx));
        assert(self.tracks(m, p, d));
        m.lemma_find(self.nd(p).key, None, None);
        let ss = self.kid(p, !near)->0;
        assert(self.link_ok(ss) && self.color_ok(ss, rx));
        assert(self.tracks(m, ss, d));
        self.lemma_model_child(m, p, !near, d);
        let s = m.find(self.nd(ss).key);
        s.lhs().lemma_root_key(self.nd(ss).key, NodeColor::Black);
        s.rhs().lemma_root_key(self.nd(ss).key, NodeColor::Black);
        if let Some(l) = self.nd(ss).left {
            assert(self.link_ok(l) && self.color_ok(l, rx));
            if Some(l) != d {
                assert(self.tracks(m, l, d));
                self.lemma_model_child(m, ss, true, d);
            }
        }
        if let Some(l) = self.nd(ss).right {
            assert(self.link_ok(l) && self.color_ok(l, rx));
            if Some(l) != d {
                assert(self.tracks(m, l, d));
                self.lemma_model_child(m, ss, false, d);
            }
        }
        if let Some(gp) = self.nd(p).parent {
            assert(self.link_ok(gp));
            assert(self.tracks(m, gp, d));
        }
    }

    /// After the repaintings and the rotation of the far case every
    /// coloring rule holds again.
    #[verifier::rlimit(40)]
    proof fn lemma_far(pre: &Self, post: &Self, node: usize, near: bool, d: Option<usize>)
        requires
            pre.short_at(node, near, d),
            ({
                let p = pre.nd(node).parent->0;
                pre.kid(p, !near) matches Some(s) && pre.is_black(s) && (pre.kid(
                    s,
                    !near,
                ) matches Some(f) && !pre.is_black(f) && Self::turned(pre, post, p, near)
                    && Self::dyed(
                    pre,
                    post,
                    Dye { at: p, color: NodeColor::Black, bh: pre.nt(s).bh },
                    Dye { at: s, color: pre.nd(p).color, bh: pre.nt(p).bh },
                    Dye { at: f, color: NodeColor::Black, bh: pre.nt(s).bh },
                ))
            }),
        ensures
            post.colors_ok(Self::dd(d, None)),
    {
        let rx = Self::dd(d, Some(node));
        let ry = Self::dd(d, None);
        let p = pre.nd(node).parent->0;
        let s = pre.kid(p, !near)->0;
        let f = pre.kid(s, !near)->0;
        let c = pre.kid(s, near);
        let g = pre.nd(p).parent;
        assert(pre.link_ok(node) && pre.color_ok(node, rx));
        assert(pre.link_ok(p) && pre.color_ok(p, rx));
        assert(pre.link_ok(s) && pre.color_ok(s, rx));
        assert(pre.link_ok(f) && pre.color_ok(f, rx));
        if let Some(gg) = g {
            assert(pre.link_ok(gg) && pre.color_ok(gg, rx));
        }
        if let Some(cc) = c {
            assert(pre.link_ok(cc) && pre.color_ok(cc, rx));
        }
        assert(d != Some(p) && d != Some(s) && d != Some(f));
        assert(post.color_ok(p, ry));
        assert(post.color_ok(s, ry));
        assert(post.color_ok(f, ry));
        assert forall|i: usize| post.live(i) implies #[trigger] post.color_ok(i, ry) by {
            assert(pre.live(i));
            assert(pre.color_ok(i, rx));
            assert(pre.link_ok(i));
            if i == p || i == s || i == f {
            } else if Some(i) == g {
            } else {
                if let Some(l) = pre.nd(i).left {
                    assert(pre.link_ok(l));
                }
                if let Some(r) = pre.nd(i).right {
                    assert(pre.link_ok(r));
                }
            }
        }
        if let Some(dn) = d {
            assert(pre.link_ok(dn));
        }
    }

    /// Black sibling with a red child on the far side: the far nephew turns
    /// black, the sibling takes the color of the parent, the parent turns
    /// black, and a rotation at the parent lifts the sibling. Returns the
    /// model after the repair.
    fn delete_far(
        &mut self,
        node: usize,
        near: bool,
        Ghost(d): Ghost<Option<usize>>,
        Ghost(m): Ghost<Shape<(T, NodeColor)>>,
    ) -> (out: Ghost<Shape<(T, NodeColor)>>)
        requires
            old(self).short_at(node, near, d),
            ({
                let p = old(self).nd(node).parent->0;
                old(self).kid(p, !near) matches Some(s) && old(self).is_black(s) && (old(
                    self,
                ).kid(s, !near) matches Some(f) && !old(self).is_black(f)) && (near ==> (old(
                    self,
                ).nd(s).left matches Some(l) ==> old(self).is_black(l)))
            }),
            old(self).modeled(m, d),
        ensures
            final(self).structure_ok(),
            final(self).colors_ok(Self::dd(d, None)),
            Self::same_keys(old(self), final(self)),
            final(self).modeled(out@, d),
            out@ == m.relieved(old(self).nd(old(self).nd(node).parent->0).key, near).0,
            Self::parents_kept(
                old(self),
                final(self),
                old(self).nt(node).lo,
                old(self).nt(node).hi,
            ),
    {
        let parent = self.nodes[node].parent.unwrap();
        let ghost rx = Self::dd(d, Some(node));
        proof {
            assert(self.link_ok(node));
            assert(self.link_ok(parent));
            assert(self.color_ok(parent, rx));
            self.lemma_short_pair(m, node, near, d);
        }
        let sibling = self.child(parent, !near).unwrap();
        proof {
            assert(self.link_ok(sibling));
        }
        let far = self.child(sibling, !near).unwrap();
        let ghost e = self.nt(sibling).bh;
        let ghost top = self.nt(parent).bh;
        let ghost df = Dye { at: far, color: NodeColor::Black, bh: e };
        let parent_color = self._return_color(parent);
        let ghost ds = Dye { at: sibling, color: parent_color, bh: top };
        let ghost dp = Dye { at: parent, color: NodeColor::Black, bh: e };
        let ghost kf = self.nd(far).key;
        let ghost ks = self.nd(sibling).key;
        let ghost kp = self.nd(parent).key;
        proof {
            assert(self.link_ok(far));
            if let Some(cc) = self.kid(sibling, near) {
                assert(self.link_ok(cc));
            }
            if let Some(gg) = self.nd(parent).parent {
                assert(self.link_ok(gg));
            }
        }
        self.paint(far, NodeColor::Black, Ghost(e));
        let ghost s1 = *self;
        self.paint(sibling, parent_color, Ghost(top));
        let ghost s2 = *self;
        self.paint(parent, NodeColor::Black, Ghost(e));
        let ghost s3 = *self;
        proof {
            Self::lemma_links_links(old(self), &s1, &s2);
            Self::lemma_links_links(old(self), &s2, &s3);
            Self::lemma_dye_dye(old(self), &s1, &s2, df, df, ds);
            Self::lemma_dye_dye(old(self), &s2, &s3, ds, df, dp);
            Self::lemma_same_links(old(self), &s1);
            Self::lemma_same_links(old(self), &s2);
            Self::lemma_same_links(old(self), &s3);
        }
        self.rotate(parent, near);
        let ghost m1 = m.repainted(kf, NodeColor::Black);
        let ghost m2 = m1.repainted(ks, parent_color);
        let ghost m3 = m2.repainted(kp, NodeColor::Black);
        let ghost m4 = m3.rerooted(kp, near);
        proof {
            Self::lemma_links_turn(old(self), &s3, self, parent, near);
            Self::lemma_turn_parents(
                old(self),
                self,
                parent,
                near,
                old(self).nt(node).lo,
                old(self).nt(node).hi,
            );
            Self::lemma_dye_keep(old(self), &s3, self, dp, ds, df, parent, near);
            Self::lemma_far(old(self), self, node, near, d);
            Self::lemma_paint_model(old(self), &s1, m, far, NodeColor::Black, d);
            assert(s1.nd(sibling).key == ks);
            Self::lemma_paint_model(&s1, &s2, m1, sibling, parent_color, d);
            assert(s2.nd(parent).key == kp);
            Self::lemma_paint_model(&s2, &s3, m2, parent, NodeColor::Black, d);
            assert(s3.nd(parent).key == kp);
            Self::lemma_turn_model(&s3, self, m3, parent, near, d);
            m.lemma_far_done(kp, near);
        }
        Ghost(m4)
    }

    /// The links of `post` that the color rules read are those of `pre`
    /// after the near nephew of `node` was lifted into the place of its
    /// parent.
    spec fn lifted(pre: &Self, post: &Self, node: usize, near: bool) -> bool {
        let p = pre.nd(node).parent->0;
        let s = pre.kid(p, !near)->0;
        let n = pre.kid(s, near)->0;
        let g = pre.nd(p).parent;
        &&& post.nodes@.len() == pre.nodes@.len()
        &&& post.root == (if g is None {
            Some(n)
        } else {
            pre.root
        })
        &&& forall|i: usize|
            i < pre.nodes@.len() ==> (#[trigger] post.nt(i)).live == pre.nt(i).live
        &&& post.kid(p, near) == Some(node)
        &&& post.kid(p, !near) == pre.kid(n, near)
        &&& post.kid(n, near) == Some(p)
        &&& post.kid(n, !near) == Some(s)
        &&& post.kid(s, near) == pre.kid(n, !near)
        &&& post.kid(s, !near) == pre.kid(s, !near)
        &&& g matches Some(gg) ==> {
            &&& post.nd(gg).left == (if pre.nd(gg).left == Some(p) {
                Some(n)
            } else {
                pre.nd(gg).left
            })
            &&& post.nd(gg).right == (if pre.nd(gg).left == Some(p) {
                pre.nd(gg).right
            } else {
                Some(n)
            })
        }
        &&& forall|i: usize|
            i < pre.nodes@.len() && i != p && i != s && i != n && Some(i) != g ==> (
            #[trigger] post.nd(i)).left == pre.nd(i).left && post.nd(i).right == pre.nd(i).right
        &&& forall|i: usize|
            i < pre.nodes@.len() && i != n && pre.nd(i).parent is Some ==> (#[trigger] post.nd(
                i,
            )).parent is Some
    }

    /// The two rotations of the near case lift the near nephew into the
    /// place of the parent.
    proof fn lemma_lifted(
        pre: &Self,
        half: &Self,
        post: &Self,
        node: usize,
        near: bool,
        d: Option<usize>,
    )
        requires
            pre.structure_ok(),
            pre.live(node),
            ({
                let p = pre.nd(node).parent->0;
                pre.nd(node).parent is Some && pre.kid(p, near) == Some(node) && (pre.kid(
                    p,
                    !near,
                ) matches Some(s) && (pre.kid(s, near) matches Some(n) && Self::turned(
                    pre,
                    half,
                    s,
                    !near,
                ) && Self::turned(half, post, p, near)))
            }),
        ensures
            Self::lifted(pre, post, node, near),
    {
        let p = pre.nd(node).parent->0;
        let s = pre.kid(p, !near)->0;
        let n = pre.kid(s, near)->0;
        let g = pre.nd(p).parent;
        assert(pre.link_ok(node));
        assert(pre.link_ok(p));
        assert(pre.link_ok(s));
        assert(pre.link_ok(n));
        if let Some(gg) = g {
            assert(pre.link_ok(gg));
        }
        if let Some(c) = pre.kid(n, near) {
            assert(pre.link_ok(c));
        }
        if let Some(c) = pre.kid(n, !near) {
            assert(pre.link_ok(c));
        }
        assert(half.kid(p, !near) == Some(n));
        assert(half.kid(p, near) == Some(node));
        assert(half.nd(p).parent == g);
        assert(half.kid(n, near) == pre.kid(n, near));
        assert(half.kid(n, !near) == Some(s));
        assert(half.kid(s, near) == pre.kid(n, !near));
        assert(half.kid(s, !near) == pre.kid(s, !near));
        assert(half.nd(s).parent == Some(n));
        assert(half.nd(n).parent == Some(p));
        assert forall|i: usize| i < pre.nodes@.len() implies (#[trigger] post.nt(i)).live == pre.nt(
            i,
        ).live by {
            assert(half.nt(i).live == pre.nt(i).live);
        }
        assert forall|i: usize|
            i < pre.nodes@.len() && i != p && i != s && i != n && Some(i) != g implies (
        #[trigger] post.nd(i)).left == pre.nd(i).left && post.nd(i).right == pre.nd(i).right by {
            assert(half.nd(i).key == pre.nd(i).key);
            if Some(i) == pre.kid(n, !near) {
            } else if Some(i) == pre.kid(n, near) {
            } else {
            }
        }
        assert forall|i: usize|
            i < pre.nodes@.len() && i != n && pre.nd(i).parent is Some implies (#[trigger] post.nd(
                i,
            )).parent is Some by {
            assert(half.nd(i).key == pre.nd(i).key);
            assert(pre.nt(i).live == half.nt(i).live);
            if i == p || i == s || Some(i) == g {
            } else if Some(i) == pre.kid(n, !near) {
            } else if Some(i) == pre.kid(n, near) {
            } else {
            }
        }
    }

    /// After the repaintings and the two rotations of the near case every
    /// coloring rule holds again.
    #[verifier::rlimit(40)]
    proof fn lemma_near(pre: &Self, post: &Self, node: usize, near: bool, d: Option<usize>)
        requires
            pre.short_at(node, near, d),
            ({
                let p = pre.nd(node).parent->0;
                pre.kid(p, !near) matches Some(s) && pre.is_black(s) && (pre.kid(
                    s,
                    near,
                ) matches Some(n) && !pre.is_black(n) && Self::lifted(pre, post, node, near)
                    && Self::dyed(
                    pre,
                    post,
                    Dye { at: p, color: NodeColor::Black, bh: pre.nt(s).bh },
                    Dye { at: n, color: pre.nd(p).color, bh: pre.nt(p).bh },
                    Dye { at: n, color: pre.nd(p).color, bh: pre.nt(p).bh },
                ))
            }),
        ensures
            post.colors_ok(Self::dd(d, None)),
    {
        let rx = Self::dd(d, Some(node));
        let ry = Self::dd(d, None);
        let p = pre.nd(node).parent->0;
        let s = pre.kid(p, !near)->0;
        let n = pre.kid(s, near)->0;
        let f = pre.kid(s, !near);
        let al = pre.kid(n, near);
        let be = pre.kid(n, !near);
        let g = pre.nd(p).parent;
        assert(pre.link_ok(node) && pre.color_ok(node, rx));
        assert(pre.link_ok(p) && pre.color_ok(p, rx));
        assert(pre.link_ok(s) && pre.color_ok(s, rx));
        assert(pre.link_ok(n) && pre.color_ok(n, rx));
        if let Some(gg) = g {
            assert(pre.link_ok(gg) && pre.color_ok(gg, rx));
        }
        if let Some(ff) = f {
            assert(pre.link_ok(ff) && pre.color_ok(ff, rx));
        }
        if let Some(aa) = al {
            assert(pre.link_ok(aa) && pre.color_ok(aa, rx));
        }
        if let Some(bb) = be {
            assert(pre.link_ok(bb) && pre.color_ok(bb, rx));
        }
        assert(d != Some(p) && d != Some(s) && d != Some(n));
        assert(post.color_ok(p, ry));
        assert(post.color_ok(s, ry));
        assert(post.color_ok(n, ry));
        assert forall|i: usize| post.live(i) implies #[trigger] post.color_ok(i, ry) by {
            assert(pre.live(i));
            assert(pre.color_ok(i, rx));
            assert(pre.link_ok(i));
            if i == p || i == s || i == n {
            } else if Some(i) == g {
            } else {
                if let Some(l) = pre.nd(i).left {
                    assert(pre.link_ok(l));
                }
                if let Some(r) = pre.nd(i).right {
                    assert(pre.link_ok(r));
                }
            }
        }
        if let Some(dn) = d {
            assert(pre.link_ok(dn));
        }
    }

    /// Black sibling with a red child on the near side: the near nephew
    /// takes the color of the parent, the parent turns black, and a
    /// rotation at the sibling and one at the parent lift the nephew into
    /// the place of the parent. Returns the model after the repair.
    fn delete_near(
        &mut self,
        node: usize,
        near: bool,
        Ghost(d): Ghost<Option<usize>>,
        Ghost(m): Ghost<Shape<(T, NodeColor)>>,
    ) -> (out: Ghost<Shape<(T, NodeColor)>>)
        requires
            old(self).short_at(node, near, d),
            ({
                let p = old(self).nd(node).parent->0;
                old(self).kid(p, !near) matches Some(s) && old(self).is_black(s) && (old(
                    self,
                ).kid(s, near) matches Some(n) && !old(self).is_black(n)) && (!near ==> (old(
                    self,
                ).nd(s).left matches Some(l) ==> old(self).is_black(l)))
            }),
            old(self).modeled(m, d),
        ensures
            final(self).structure_ok(),
            final(self).colors_ok(Self::dd(d, None)),
            Self::same_keys(old(self), final(self)),
            final(self).modeled(out@, d),
            out@ == m.relieved(old(self).nd(old(self).nd(node).parent->0).key, near).0,
            Self::parents_kept(
                old(self),
                final(self),
                old(self).nt(node).lo,
                old(self).nt(node).hi,
            ),
    {
        let parent = self.nodes[node].parent.unwrap();
        let ghost rx = Self::dd(d, Some(node));
        proof {
            assert(self.link_ok(node));
            assert(self.link_ok(parent));
            assert(self.color_ok(parent, rx));
            self.lemma_short_pair(m, node, near, d);
        }
        let sibling = self.child(parent, !near).unwrap();
        proof {
            assert(self.link_ok(sibling));
        }
        let nephew = self.child(sibling, near).unwrap();
        let ghost e = self.nt(sibling).bh;
        let ghost top = self.nt(parent).bh;
        let parent_color = self._return_color(parent);
        let ghost dn = Dye { at: nephew, color: parent_color, bh: top };
        let ghost dp = Dye { at: parent, color: NodeColor::Black, bh: e };
        let ghost kn = self.nd(nephew).key;
        let ghost ks = self.nd(sibling).key;
        let ghost kp = self.nd(parent).key;
        proof {
            assert(self.link_ok(nephew));
            if let Some(cc) = self.kid(nephew, !near) {
                assert(self.link_ok(cc));
            }
            if let Some(cc) = self.kid(nephew, near) {
                assert(self.link_ok(cc));
            }
            if let Some(gg) = self.nd(parent).parent {
                assert(self.link_ok(gg));
            }
        }
        self.paint(nephew, parent_color, Ghost(top));
        let ghost s1 = *self;
        self.paint(parent, NodeColor::Black, Ghost(e));
        let ghost s2 = *self;
        proof {
            Self::lemma_links_links(old(self), &s1, &s2);
            Self::lemma_dye_dye(old(self), &s1, &s2, dn, dn, dp);
            Self::lemma_same_links(old(self), &s1);
            Self::lemma_same_links(old(self), &s2);
        }
        self.rotate(sibling, !near);
        let ghost s3 = *self;
        proof {
            Self::lemma_links_turn(old(self), &s2, &s3, sibling, !near);
            Self::lemma_turn_parents(
                old(self),
                &s3,
                sibling,
                !near,
                old(self).nt(node).lo,
                old(self).nt(node).hi,
            );
            Self::lemma_dye_keep(old(self), &s2, &s3, dp, dn, dn, sibling, !near);
            assert(s3.kid(parent, !near) == Some(nephew));
            assert(s3.live(parent));
        }
        self.rotate(parent, near);
        let ghost m1 = m.repainted(kn, parent_color);
        let ghost m2 = m1.repainted(kp, NodeColor::Black);
        let ghost m3 = m2.rerooted(ks, !near);
        let ghost m4 = m3.rerooted(kp, near);
        proof {
            Self::lemma_turn_parents(
                &s3,
                self,
                parent,
                near,
                old(self).nt(node).lo,
                old(self).nt(node).hi,
            );
            Self::lemma_parents_kept(
                old(self),
                &s3,
                self,
                old(self).nt(node).lo,
                old(self).nt(node).hi,
            );
        }
        proof {
            Self::lemma_dye_keep(old(self), &s3, self, dp, dn, dn, parent, near);
            Self::lemma_lifted(old(self), &s3, self, node, near, d);
            Self::lemma_near(old(self), self, node, near, d);
            assert forall|i: usize| i < self.nodes@.len() implies (#[trigger] self.nd(i)).key
                == old(self).nd(i).key by {
                assert(s3.nd(i).key == old(self).nd(i).key);
            }
            assert forall|i: usize| i < self.nodes@.len() implies (#[trigger] self.nt(i)).live
                == old(self).nt(i).live by {
                assert(s3.nt(i).live == old(self).nt(i).live);
            }
            Self::lemma_paint_model(old(self), &s1, m, nephew, parent_color, d);
            assert(s1.nd(parent).key == kp);
            Self::lemma_paint_model(&s1, &s2, m1, parent, NodeColor::Black, d);
            assert(s2.nd(sibling).key == ks);
            assert(s2.kid(sibling, near) == Some(nephew));
            Self::lemma_turn_model(&s2, &s3, m2, sibling, !near, d);
            assert(s3.nd(parent).key == kp);
            Self::lemma_turn_model(&s3, self, m3, parent, near, d);
            m.lemma_near_done(kp, near);
        }
        Ghost(m4)
    }

    /// After the repaintings of the recoloring case every coloring rule
    /// holds again where the parent was red; where it was black, the paths
    /// through the parent now lack a black node.
    #[verifier::rlimit(40)]
    proof fn lemma_recolor(
        pre: &Self,
        post: &Self,
        node: usize,
        near: bool,
        d: Option<usize>,
        b: nat,
    )
        requires
            pre.short_at(node, near, d),
            pre.bh_below(b),
            ({
                let p = pre.nd(node).parent->0;
                pre.kid(p, !near) matches Some(s) && pre.is_black(s) && (pre.nd(
                    s,
                ).left matches Some(l) ==> pre.is_black(l)) && (pre.nd(s).right matches Some(r)
                    ==> pre.is_black(r)) && Self::same_links(pre, post) && Self::dyed(
                    pre,
                    post,
                    Dye {
                        at: p,
                        color: NodeColor::Black,
                        bh: if pre.is_black(p) {
                            (pre.nt(p).bh - 1) as nat
                        } else {
                            pre.nt(p).bh
                        },
                    },
                    Dye { at: s, color: NodeColor::Red, bh: (pre.nt(s).bh - 1) as nat },
                    Dye { at: s, color: NodeColor::Red, bh: (pre.nt(s).bh - 1) as nat },
                )
            }),
        ensures
            post.bh_below(b),
            ({
                let p = pre.nd(node).parent->0;
                if pre.is_black(p) {
                    &&& post.colors_ok(Self::dd(d, Some(p)))
                    &&& post.live(p)
                    &&& post.is_black(p)
                    &&& post.mass(p, d) > pre.mass(node, d)
                } else {
                    post.colors_ok(Self::dd(d, None))
                }
            }),
    {
        let rx = Self::dd(d, Some(node));
        let p = pre.nd(node).parent->0;
        let s = pre.kid(p, !near)->0;
        let ry = if pre.is_black(p) {
            Self::dd(d, Some(p))
        } else {
            Self::dd(d, None)
        };
        assert(pre.link_ok(node) && pre.color_ok(node, rx));
        assert(pre.link_ok(p) && pre.color_ok(p, rx));
        assert(pre.link_ok(s) && pre.color_ok(s, rx));
        if let Some(gg) = pre.nd(p).parent {
            assert(pre.link_ok(gg) && pre.color_ok(gg, rx));
        }
        if let Some(l) = pre.nd(s).left {
            assert(pre.link_ok(l) && pre.color_ok(l, rx));
        }
        if let Some(r) = pre.nd(s).right {
            assert(pre.link_ok(r) && pre.color_ok(r, rx));
        }
        assert(d != Some(p) && d != Some(s));
        assert(post.color_ok(p, ry));
        assert(post.color_ok(s, ry));
        assert forall|i: usize| post.live(i) implies #[trigger] post.color_ok(i, ry) by {
            assert(pre.live(i));
            assert(pre.color_ok(i, rx));
            assert(pre.link_ok(i));
            if i == p || i == s {
            } else {
                if let Some(l) = pre.nd(i).left {
                    assert(pre.link_ok(l));
                }
                if let Some(r) = pre.nd(i).right {
                    assert(pre.link_ok(r));
                }
            }
        }
        assert forall|i: usize| post.live(i) implies (#[trigger] post.nt(i)).bh <= b by {
            assert(pre.nt(i).bh <= b);
        }
        if let Some(dn) = d {
            assert(pre.link_ok(dn));
        }
    }

    /// Black sibling without a red child: the sibling turns red. A red
    /// parent turns black and the repair is done; below a black parent the
    /// lack moves up to the parent, which the result reports, with the
    /// model after the repaintings.
    fn delete_recolor(
        &mut self,
        node: usize,
        near: bool,
        Ghost(d): Ghost<Option<usize>>,
        Ghost(b): Ghost<nat>,
        Ghost(m): Ghost<Shape<(T, NodeColor)>>,
    ) -> (r: (bool, Ghost<Shape<(T, NodeColor)>>))
        requires
            old(self).short_at(node, near, d),
            old(self).bh_below(b),
            ({
                let p = old(self).nd(node).parent->0;
                old(self).kid(p, !near) matches Some(s) && old(self).is_black(s) && (old(
                    self,
                ).nd(s).left matches Some(l) ==> old(self).is_black(l)) && (old(self).nd(
                    s,
                ).right matches Some(r) ==> old(self).is_black(r))
            }),
            old(self).modeled(m, d),
        ensures
            final(self).structure_ok(),
            Self::same_keys(old(self), final(self)),
            final(self).bh_below(b),
            r.0 == old(self).is_black(old(self).nd(node).parent->0),
            !r.0 ==> final(self).colors_ok(Self::dd(d, None)),
            r.0 ==> ({
                let p = old(self).nd(node).parent->0;
                &&& final(self).colors_ok(Self::dd(d, Some(p)))
                &&& final(self).live(p)
                &&& final(self).is_black(p)
                &&& final(self).mass(p, d) > old(self).mass(node, d)
            }),
            Self::same_links(old(self), final(self)),
            final(self).modeled(r.1@, d),
            ({
                let p = old(self).nd(node).parent->0;
                let whole = m.relieved(old(self).nd(p).key, near);
                if !r.0 {
                    r.1@ == whole.0
                } else {
                    match old(self).nd(p).parent {
                        None => r.1@ == whole.0,
                        Some(gp) => r.1@.relieved(
                            old(self).nd(gp).key,
                            old(self).nd(gp).left == Some(p),
                        ) == whole,
                    }
                }
            }),
    {
        let parent = self.nodes[node].parent.unwrap();
        let ghost rx = Self::dd(d, Some(node));
        proof {
            assert(self.link_ok(node));
            assert(self.link_ok(parent));
            assert(self.color_ok(parent, rx));
            self.lemma_short_pair(m, node, near, d);
        }
        let sibling = self.child(parent, !near).unwrap();
        proof {
            assert(self.link_ok(sibling));
        }
        let ghost bs = (self.nt(sibling).bh - 1) as nat;
        let ghost bp = self.nt(parent).bh;
        let ghost ds = Dye { at: sibling, color: NodeColor::Red, bh: bs };
        let ghost ks = self.nd(sibling).key;
        let ghost kp = self.nd(parent).key;
        self.paint(sibling, NodeColor::Red, Ghost(bs));
        let ghost s1 = *self;
        let ghost m1 = m.repainted(ks, NodeColor::Red);
        proof {
            Self::lemma_same_links(old(self), &s1);
            Self::lemma_paint_model(old(self), &s1, m, sibling, NodeColor::Red, d);
        }
        let up = if self._return_color(parent) == NodeColor::Red {
            self.paint(parent, NodeColor::Black, Ghost(bp));
            false
        } else {
            self.note_bh(parent, Ghost((bp - 1) as nat));
            true
        };
        let ghost m2 = if up {
            m1
        } else {
            m1.repainted(kp, NodeColor::Black)
        };
        proof {
            let ghost dp = Dye {
                at: parent,
                color: NodeColor::Black,
                bh: if up {
                    (bp - 1) as nat
                } else {
                    bp
                },
            };
            assert(s1.nd(parent).color == old(self).nd(parent).color);
            assert(s1.nd(parent).key == kp);
            Self::lemma_links_links(old(self), &s1, self);
            Self::lemma_dye_dye(old(self), &s1, self, ds, ds, dp);
            Self::lemma_same_links(old(self), self);
            Self::lemma_recolor(old(self), self, node, near, d, b);
            if up {
                Self::lemma_notes_model(&s1, self, m1, d);
                match old(self).nd(parent).parent {
                    None => {
                        m.lemma_recolor_root(kp, near);
                        assert(m.find(kp) == m);
                    },
                    Some(gp) => {
                        m.lemma_recolor_up(
                            kp,
                            near,
                            old(self).nd(gp).key,
                            old(self).nd(gp).left == Some(parent),
                        );
                    },
                }
            } else {
                Self::lemma_paint_model(&s1, self, m1, parent, NodeColor::Black, d);
                m.lemma_recolor_done(kp, near);
            }
        }
        (up, Ghost(m2))
    }

    /// After the rotation of the red-sibling case the paths through `node`
    /// still lack a black node, and its sibling is black.
    proof fn lemma_red_sibling(
        pre: &Self,
        post: &Self,
        node: usize,
        near: bool,
        d: Option<usize>,
        b: nat,
    )
        requires
            pre.short_at(node, near, d),
            pre.bh_below(b),
            ({
                let p = pre.nd(node).parent->0;
                pre.kid(p, !near) matches Some(s) && !pre.is_black(s) && Self::turned(
                    pre,
                    post,
                    p,
                    near,
                ) && Self::dyed(
                    pre,
                    post,
                    Dye { at: p, color: NodeColor::Red, bh: pre.nt(s).bh },
                    Dye { at: s, color: NodeColor::Black, bh: pre.nt(p).bh },
                    Dye { at: s, color: NodeColor::Black, bh: pre.nt(p).bh },
                )
            }),
        ensures
            post.colors_ok(Self::dd(d, Some(node))),
            post.bh_below(b),
            post.live(node),
            post.is_black(node),
            post.nd(node).parent == pre.nd(node).parent,
            post.kid(pre.nd(node).parent->0, near) == Some(node),
            post.sibling_red(node) == 0,
            post.mass(node, d) == pre.mass(node, d),
    {
        let rx = Self::dd(d, Some(node));
        let p = pre.nd(node).parent->0;
        let s = pre.kid(p, !near)->0;
        let c = pre.kid(s, near);
        let f = pre.kid(s, !near);
        let g = pre.nd(p).parent;
        assert(pre.link_ok(node) && pre.color_ok(node, rx));
        assert(pre.link_ok(p) && pre.color_ok(p, rx));
        assert(pre.link_ok(s) && pre.color_ok(s, rx));
        if let Some(gg) = g {
            assert(pre.link_ok(gg) && pre.color_ok(gg, rx));
        }
        if let Some(cc) = c {
            assert(pre.link_ok(cc) && pre.color_ok(cc, rx));
        }
        if let Some(ff) = f {
            assert(pre.link_ok(ff) && pre.color_ok(ff, rx));
        }
        assert(d != Some(p) && d != Some(s));
        assert(node != p && node != s);
        assert(post.color_ok(p, rx));
        assert(post.color_ok(s, rx));
        assert forall|i: usize| post.live(i) implies #[trigger] post.color_ok(i, rx) by {
            assert(pre.live(i));
            assert(pre.color_ok(i, rx));
            assert(pre.link_ok(i));
            if i == p || i == s {
            } else if Some(i) == g {
            } else {
                if let Some(l) = pre.nd(i).left {
                    assert(pre.link_ok(l));
                }
                if let Some(r) = pre.nd(i).right {
                    assert(pre.link_ok(r));
                }
            }
        }
        assert forall|i: usize| post.live(i) implies (#[trigger] post.nt(i)).bh <= b by {
            assert(pre.nt(i).bh <= b);
            assert(pre.nt(p).bh <= b);
            assert(pre.nt(s).bh <= b);
        }
        if let Some(dn) = d {
            assert(pre.link_ok(dn));
        }
        assert(post.kid(p, !near) == c);
        assert(c is Some);
    }

    /// Red sibling: the sibling turns black, the parent red, and a rotation
    /// at the parent toward `node` gives `node` a black sibling. Returns
    /// the model after the rotation.
    fn delete_red_sibling(
        &mut self,
        node: usize,
        near: bool,
        Ghost(d): Ghost<Option<usize>>,
        Ghost(b): Ghost<nat>,
        Ghost(m): Ghost<Shape<(T, NodeColor)>>,
    ) -> (out: Ghost<Shape<(T, NodeColor)>>)
        requires
            old(self).short_at(node, near, d),
            old(self).bh_below(b),
            ({
                let p = old(self).nd(node).parent->0;
                old(self).kid(p, !near) matches Some(s) && !old(self).is_black(s)
            }),
            old(self).modeled(m, d),
        ensures
            final(self).short_at(node, near, d),
            final(self).bh_below(b),
            Self::same_keys(old(self), final(self)),
            final(self).sibling_red(node) == 0,
            final(self).mass(node, d) == old(self).mass(node, d),
            final(self).nd(node).parent == old(self).nd(node).parent,
            final(self).nt(node).lo == old(self).nt(node).lo,
            final(self).nt(node).hi == old(self).nt(node).hi,
            final(self).modeled(out@, d),
            ({
                let kp = old(self).nd(old(self).nd(node).parent->0).key;
                out@.relieved(kp, near) == m.relieved(kp, near)
            }),
            Self::parents_kept(
                old(self),
                final(self),
                old(self).nt(node).lo,
                old(self).nt(node).hi,
            ),
    {
        let parent = self.nodes[node].parent.unwrap();
        let ghost rx = Self::dd(d, Some(node));
        proof {
            assert(self.link_ok(node));
            assert(self.link_ok(parent));
            assert(self.color_ok(parent, rx));
            self.lemma_short_pair(m, node, near, d);
        }
        let sibling = self.child(parent, !near).unwrap();
        proof {
            assert(self.link_ok(sibling));
            if let Some(cc) = self.kid(sibling, near) {
                assert(self.link_ok(cc));
            }
            if let Some(gg) = self.nd(parent).parent {
                assert(self.link_ok(gg));
            }
        }
        let ghost e = self.nt(sibling).bh;
        let ghost top = self.nt(parent).bh;
        let ghost ds = Dye { at: sibling, color: NodeColor::Black, bh: top };
        let ghost dp = Dye { at: parent, color: NodeColor::Red, bh: e };
        let ghost ks = self.nd(sibling).key;
        let ghost kp = self.nd(parent).key;
        self.paint(sibling, NodeColor::Black, Ghost(top));
        let ghost s1 = *self;
        self.paint(parent, NodeColor::Red, Ghost(e));
        let ghost s2 = *self;
        proof {
            Self::lemma_links_links(old(self), &s1, &s2);
            Self::lemma_dye_dye(old(self), &s1, &s2, ds, ds, dp);
            Self::lemma_same_links(old(self), &s1);
            Self::lemma_same_links(old(self), &s2);
        }
        if near {
            self._left_rotate(parent);
        } else {
            self._right_rotate(parent);
        }
        let ghost m1 = m.repainted(ks, NodeColor::Black);
        let ghost m2 = m1.repainted(kp, NodeColor::Red);
        let ghost m3 = m2.rerooted(kp, near);
        proof {
            Self::lemma_links_turn(old(self), &s2, self, parent, near);
            Self::lemma_turn_parents(
                old(self),
                self,
                parent,
                near,
                old(self).nt(node).lo,
                old(self).nt(node).hi,
            );
            Self::lemma_dye_keep(old(self), &s2, self, dp, ds, ds, parent, near);
            Self::lemma_red_sibling(old(self), self, node, near, d, b);
            Self::lemma_paint_model(old(self), &s1, m, sibling, NodeColor::Black, d);
            assert(s1.nd(parent).key == kp);
            Self::lemma_paint_model(&s1, &s2, m1, parent, NodeColor::Red, d);
            assert(s2.nd(parent).key == kp);
            Self::lemma_turn_model(&s2, self, m2, parent, near, d);
            m.lemma_red_step(kp, near);
        }
        Ghost(m3)
    }

    /// Makes up for the black node that the paths through `node` lack:
    /// recoloring moves the lack up, up to the root; rotations end it.
    /// Every rotation is at a node above `node` or beside such a node, so
    /// `node` and the nodes below it keep their parents. Returns the model
    /// after the repair.
    fn _delete_repair(
        &mut self,
        node: usize,
        Ghost(d): Ghost<Option<usize>>,
        Ghost(b): Ghost<nat>,
        Ghost(m): Ghost<Shape<(T, NodeColor)>>,
    ) -> (out: Ghost<Shape<(T, NodeColor)>>)
        requires
            old(self).structure_ok(),
            old(self).colors_ok(Self::dd(d, Some(node))),
            old(self).live(node),
            old(self).is_black(node),
            old(self).bh_below(b),
            old(self).modeled(m, d),
        ensures
            final(self).structure_ok(),
            final(self).colors_ok(Self::dd(d, None)),
            Self::same_keys(old(self), final(self)),
            final(self).modeled(out@, d),
            out@ == (match old(self).nd(node).parent {
                None => m,
                Some(p) => m.relieved(old(self).nd(p).key, old(self).nd(p).left == Some(node)).0,
            }),
            final(self).nd(node).parent == old(self).nd(node).parent,
            Self::parents_kept(
                old(self),
                final(self),
                old(self).nt(node).lo,
                old(self).nt(node).hi,
            ),
        decreases b - old(self).mass(node, d), old(self).sibling_red(node),
    {
        let ghost rx = Self::dd(d, Some(node));
        proof {
            assert(self.link_ok(node));
            assert(self.color_ok(node, rx));
        }
        if self.nodes[node].parent.is_none() {
            // The lack has reached the root: every path lacks the same.
            proof {
                assert forall|i: usize| self.live(i) implies #[trigger] self.color_ok(
                    i,
                    Self::dd(d, None),
                ) by {
                    assert(self.color_ok(i, rx));
                    assert(self.link_ok(i));
                }
            }
            return Ghost(m);
        }
        let parent = self.nodes[node].parent.unwrap();
        proof {
            assert(self.link_ok(parent));
            assert(self.color_ok(parent, rx));
        }
        let near = self._is_left_child(node);
        let sibling = self._return_node_same_level(node);
        match sibling {
            None => {
                // A node whose paths lack a black node has a sibling.
                assert(false);
                self._delete_repair(parent, Ghost(d), Ghost(b), Ghost(m))
            },
            Some(s) => {
                proof {
                    assert(self.link_ok(s));
                    assert(self.color_ok(s, rx));
                    assert(self.nt(node).bh <= b);
                    assert(self.nt(parent).bh <= b);
                }
                if self._return_color(s) == NodeColor::Black {
                    if !self._has_red_child(s) {
                        // Black sibling without a red child.
                        let (up, Ghost(m1)) = self.delete_recolor(
                            node,
                            near,
                            Ghost(d),
                            Ghost(b),
                            Ghost(m),
                        );
                        if up {
                            proof {
                                assert(self.nd(parent).parent == old(self).nd(parent).parent);
                                assert(self.nd(parent).key == old(self).nd(parent).key);
                                if let Some(gp) = old(self).nd(parent).parent {
                                    assert(old(self).link_ok(gp));
                                    assert(self.nd(gp).key == old(self).nd(gp).key);
                                    assert(self.nd(gp).left == old(self).nd(gp).left);
                                }
                            }
                            let ghost mid = *self;
                            let up_model = self._delete_repair(
                                parent,
                                Ghost(d),
                                Ghost(b),
                                Ghost(m1),
                            );
                            proof {
                                // The keys below `node` lie below its parent.
                                assert(old(self).link_ok(parent));
                                assert forall|j: usize|
                                    old(self).live(j) && above(
                                        old(self).nt(node).lo,
                                        old(self).kr(j),
                                    ) && below(old(self).nt(node).hi, old(self).kr(j)) implies (
                                #[trigger] self.nd(j)).parent == old(self).nd(j).parent by {
                                    assert(mid.live(j));
                                    assert(mid.nd(j).key == old(self).nd(j).key);
                                    assert(mid.nd(j).parent == old(self).nd(j).parent);
                                    assert(mid.nt(parent).lo == old(self).nt(parent).lo);
                                    assert(mid.nt(parent).hi == old(self).nt(parent).hi);
                                }
                            }
                            up_model
                        } else {
                            Ghost(m1)
                        }
                    } else {
                        // Black sibling with a red child: the left child of
                        // the sibling is looked at first.
                        let left_red = match self.nodes[s].left {
                            Some(l) => self._return_color(l) == NodeColor::Red,
                            None => false,
                        };
                        let far_case = if near {
                            !left_red
                        } else {
                            left_red
                        };
                        if far_case {
                            self.delete_far(node, near, Ghost(d), Ghost(m))
                        } else {
                            self.delete_near(node, near, Ghost(d), Ghost(m))
                        }
                    }
                } else {
                    let Ghost(m1) = self.delete_red_sibling(
                        node,
                        near,
                        Ghost(d),
                        Ghost(b),
                        Ghost(m),
                    );
                    proof {
                        assert(self.link_ok(parent));
                        assert(self.link_ok(node));
                        assert(self.nd(parent).key == old(self).nd(parent).key);
                        assert((self.nd(parent).left == Some(node)) == near);
                    }
                    let ghost mid = *self;
                    let model = self._delete_repair(node, Ghost(d), Ghost(b), Ghost(m1));
                    proof {
                        Self::lemma_parents_kept(
                            old(self),
                            &mid,
                            self,
                            old(self).nt(node).lo,
                            old(self).nt(node).hi,
                        );
                    }
                    model
                }
            },
        }
    }
}

// Removal.
impl<T: OrderedKey> RBTree<T> {
    /// `post` holds the nodes of `pre` but `gone`, and each node but `z`
    /// holds its old key; where `z` stays, it holds the key that `gone`
    /// held.
    spec fn removed(pre: &Self, post: &Self, z: usize, gone: usize) -> bool {
        &&& pre.live(z)
        &&& pre.live(gone)
        &&& forall|i: usize| #[trigger] post.live(i) <==> pre.live(i) && i != gone
        &&& forall|i: usize|
            post.live(i) && i != z ==> (#[trigger] post.nd(i)).key == pre.nd(i).key
        &&& z != gone ==> post.nd(z).key == pre.nd(gone).key
    }

    /// Taking a node out removes its key from the keys of the tree and
    /// changes no other.
    proof fn lemma_removed_items(pre: &Self, post: &Self, z: usize, gone: usize)
        requires
            pre.wf(),
            post.wf(),
            Self::removed(pre, post, z, gone),
        ensures
            post.shape().items() == pre.shape().items().remove(pre.nd(z).key),
    {
        pre.lemma_items_keys();
        post.lemma_items_keys();
        let kz = pre.nd(z).key;
        assert forall|k: T| post.has_key(k) <==> (pre.has_key(k) && k != kz) by {
            if post.has_key(k) {
                let j = choose|j: usize| post.live(j) && (#[trigger] post.nd(j)).key == k;
                assert(pre.live(j) && j != gone);
                if j == z {
                    assert(pre.live(gone) && pre.nd(gone).key == k);
                    if k == kz {
                        pre.lemma_unique(z, gone);
                    }
                } else {
                    assert(pre.live(j) && pre.nd(j).key == k);
                    if k == kz {
                        pre.lemma_unique(z, j);
                    }
                }
            }
            if pre.has_key(k) && k != kz {
                let j = choose|j: usize| pre.live(j) && (#[trigger] pre.nd(j)).key == k;
                if j == gone {
                    assert(post.live(z) && post.nd(z).key == k);
                } else {
                    assert(post.live(j) && post.nd(j).key == k);
                }
            }
        }
        assert forall|k: T|
            post.shape().items().contains(k) <==> pre.shape().items().remove(kz).contains(k) by {
            assert(post.painted(post.root).unpainted().items().contains(k) <==> post.has_key(k));
            assert(pre.painted(pre.root).unpainted().items().contains(k) <==> pre.has_key(k));
        }
        assert(post.shape().items() =~= pre.shape().items().remove(kz));
    }

    /// The rightmost node below `node`.
    fn _recur_right_child(&self, node: usize) -> (r: usize)
        requires
            self.structure_ok(),
            self.colors_ok(strict()),
            self.live(node),
        ensures
            self.live(r),
            self.nd(r).right is None,
            self.nt(r).hi == self.nt(node).hi,
            self.members(Some(node)).contains(r),
            r != node ==> self.nd(r).parent is Some,
            self.painted(Some(node)).max_key() == Some(self.nd(r).key),
        decreases self.rk(Some(node)),
    {
        proof {
            self.lemma_descend(node);
            self.lemma_members(node);
            self.lemma_painted(node);
            assert(self.painted(None) == Shape::<(T, NodeColor)>::Nil);
            if let Some(rr) = self.nd(node).right {
                self.lemma_painted(rr);
            }
            assert(self.link_ok(node));
        }
        match self.nodes[node].right {
            Some(r) => {
                proof {
                    assert(self.link_ok(r));
                }
                self._recur_right_child(r)
            },
            None => node,
        }
    }

    /// The node that takes the place of `node` when it is deleted: with two
    /// children the one with the next smaller key, which is the rightmost
    /// node below the left child; else the only child, if there is one.
    fn _find_replacement_node(&self, node: usize) -> (r: Option<usize>)
        requires
            self.structure_ok(),
            self.colors_ok(strict()),
            self.live(node),
        ensures
            match (self.nd(node).left, self.nd(node).right) {
                (Some(l), Some(_)) => r matches Some(x) && self.live(x) && x != node && self.nd(
                    x,
                ).right is None && self.nd(x).parent is Some && self.nt(x).hi == Some(
                    self.kr(node),
                ) && self.members(Some(l)).contains(x) && self.painted(Some(l)).max_key() == Some(
                    self.nd(x).key,
                ),
                (Some(l), None) => r == Some(l),
                (None, Some(x)) => r == Some(x),
                (None, None) => r is None,
            },
    {
        proof {
            assert(self.link_ok(node));
        }
        match self.nodes[node].left {
            Some(l) => {
                if self.nodes[node].right.is_some() {
                    let x = self._recur_right_child(l);
                    proof {
                        assert(self.link_ok(l));
                        assert(self.link_ok(x));
                    }
                    Some(x)
                } else {
                    Some(l)
                }
            },
            None => self.nodes[node].right,
        }
    }

    /// The color rules hold when the leaf `x` counts as absent.
    spec fn colors_without(&self, x: usize) -> bool {
        &&& self.root matches Some(r) ==> self.is_black(r)
        &&& forall|i: usize| self.live(i) ==> #[trigger] self.color_ok(i, Self::dd(Some(x), None))
    }

    /// `post` holds the nodes of `pre` but `x`, with their keys.
    spec fn gone(pre: &Self, post: &Self, x: usize) -> bool {
        &&& pre.live(x)
        &&& forall|i: usize| #[trigger] post.live(i) <==> pre.live(i) && i != x
        &&& forall|i: usize| post.live(i) ==> (#[trigger] post.nd(i)).key == pre.nd(i).key
    }

    /// `post` is `pre` with the new red leaf `x`, which holds `value`,
    /// attached below `p`.
    spec fn leafed(pre: &Self, post: &Self, p: usize, x: usize, value: T) -> bool {
        let left = value.rank() < pre.kr(p);
        &&& Self::added(pre, post, x, value)
        &&& pre.live(p)
        &&& post.root == pre.root
        &&& post.nd(x).color == NodeColor::Red
        &&& post.nd(x).left is None
        &&& post.nd(x).right is None
        &&& post.nd(x).parent == Some(p)
        &&& pre.kid(p, left) is None
        &&& post.kid(p, left) == Some(x)
        &&& post.kid(p, !left) == pre.kid(p, !left)
        &&& post.nd(p).color == pre.nd(p).color
        &&& forall|j: usize|
            pre.live(j) && j != p ==> (#[trigger] post.nd(j)).left == pre.nd(j).left && post.nd(
                j,
            ).right == pre.nd(j).right && post.nd(j).color == pre.nd(j).color
    }

    /// Attaching a leaf attaches it in the model.
    proof fn lemma_leaf_model(
        pre: &Self,
        post: &Self,
        m: Shape<(T, NodeColor)>,
        p: usize,
        x: usize,
        value: T,
    )
        requires
            pre.structure_ok(),
            pre.modeled(m, None),
            Self::leafed(pre, post, p, x, value),
            pre.kr(p) != value.rank(),
            m.passes(value, pre.nd(p).key),
            m.find(value) is Nil,
        ensures
            post.modeled(m.sprouted(value), None),
    {
        let after = m.sprouted(value);
        let kp = pre.nd(p).key;
        m.lemma_sprouted(value, None, None);
        assert(pre.tracks(m, p, None));
        assert(pre.link_ok(p));
        assert(post.tracks(after, x, None));
        assert forall|j: usize| post.live(j) implies #[trigger] post.tracks(after, j, None) by {
            if j != x {
                assert(pre.live(j));
                assert(pre.tracks(m, j, None));
                assert(pre.link_ok(j));
                let kj = pre.nd(j).key;
                assert(post.nd(j).key == kj);
                if let Some(l) = pre.nd(j).left {
                    assert(pre.live(l));
                    assert(post.nd(l).key == pre.nd(l).key);
                }
                if let Some(r) = pre.nd(j).right {
                    assert(pre.live(r));
                    assert(post.nd(r).key == pre.nd(r).key);
                }
                if j != p {
                    assert(pre.kr(j) != pre.kr(p));
                    if m.passes(value, kj) && ((value.rank() < kj.rank() && m.find(kj).lhs() is Nil)
                        || (kj.rank() < value.rank() && m.find(kj).rhs() is Nil)) {
                        m.lemma_descent_end(value, kj, kp);
                    }
                }
            }
        }
        assert forall|a: usize, b: usize|
            post.live(a) && post.live(b) && #[trigger] post.kr(a) == #[trigger] post.kr(
                b,
            ) implies a == b by {
            if a != x {
                assert(pre.live(a));
                assert(post.nd(a).key == pre.nd(a).key);
                assert(pre.tracks(m, a, None));
            }
            if b != x {
                assert(pre.live(b));
                assert(post.nd(b).key == pre.nd(b).key);
                assert(pre.tracks(m, b, None));
            }
            if a != x && b != x {
                assert(pre.kr(a) == pre.kr(b));
            } else if a != b {
                let o = if a != x {
                    a
                } else {
                    b
                };
                T::lemma_rank_injective(pre.nd(o).key, value);
            }
        }
        if let Some(r) = pre.root {
            assert(pre.live(r));
            assert(post.nd(r).key == pre.nd(r).key);
        }
    }

    /// A leaf that is not the root can be left out of the model: the model
    /// without it shows the other nodes as their links do, the leaf counted
    /// as absent.
    proof fn lemma_cut_model(&self, m: Shape<(T, NodeColor)>, d: usize)
        requires
            self.structure_ok(),
            self.modeled(m, None),
            self.live(d),
            self.nd(d).left is None,
            self.nd(d).right is None,
            self.nd(d).parent is Some,
        ensures
            self.modeled(m.hung(self.nd(d).key, Shape::Nil), Some(d)),
            m.find(self.nd(d).key) is Node,
            m.find(self.nd(d).key)->item == (self.nd(d).key, self.nd(d).color),
            m.find(self.nd(d).key).lone_kid() is Nil,
            m.place_of(self.nd(d).key) == Some(
                (
                    self.nd(self.nd(d).parent->0).key,
                    self.nd(self.nd(d).parent->0).left == Some(d),
                ),
            ),
    {
        let kd = self.nd(d).key;
        let p = self.nd(d).parent->0;
        let after = m.hung(kd, Shape::Nil);
        assert(self.tracks(m, d, None));
        assert(self.link_ok(d));
        assert(self.link_ok(p));
        assert(self.tracks(m, p, None));
        let g = m.find(kd);
        g.lhs().lemma_root_key(kd, NodeColor::Black);
        g.rhs().lemma_root_key(kd, NodeColor::Black);
        assert(g.lone_kid() == Shape::<(T, NodeColor)>::Nil);
        m.lemma_bypassed(kd, None, None);
        m.lemma_hung_root(kd, Shape::Nil);
        m.lemma_place_of(kd, self.nd(p).key, self.nd(p).left == Some(d), None, None);
        assert forall|j: usize| self.live(j) && j != d implies #[trigger] self.tracks(
            after,
            j,
            Some(d),
        ) by {
            assert(self.tracks(m, j, None));
            assert(self.link_ok(j));
            assert(self.kr(j) != self.kr(d));
            let s = m.find(self.nd(j).key);
            m.lemma_find(self.nd(j).key, None, None);
            s.lemma_children(None, None);
            s.lemma_hung_root(kd, Shape::Nil);
            s.lhs().lemma_hung_root(kd, Shape::Nil);
            s.rhs().lemma_hung_root(kd, Shape::Nil);
            if let Some(l) = self.nd(j).left {
                assert(self.link_ok(l));
                if l != d {
                    assert(self.kr(l) != self.kr(d));
                }
            }
            if let Some(r) = self.nd(j).right {
                assert(self.link_ok(r));
                if r != d {
                    assert(self.kr(r) != self.kr(d));
                }
            }
        }
        if let Some(r) = self.root {
            assert(self.kr(r) != self.kr(d));
        }
    }

    /// `post` is `pre` with the leaf `d` taken off its parent.
    spec fn detached(pre: &Self, post: &Self, d: usize) -> bool {
        &&& pre.live(d)
        &&& post.nodes@.len() == pre.nodes@.len()
        &&& post.root == pre.root
        &&& forall|j: usize| #[trigger] post.live(j) <==> pre.live(j) && j != d
        &&& forall|j: usize|
            pre.live(j) && j != d ==> (#[trigger] post.nd(j)).key == pre.nd(j).key
                && post.nd(j).color == pre.nd(j).color && post.nd(j).left == (if pre.nd(j).left
                == Some(d) {
                None
            } else {
                pre.nd(j).left
            }) && post.nd(j).right == (if pre.nd(j).right == Some(d) {
                None
            } else {
                pre.nd(j).right
            })
    }

    /// Taking off a leaf that the model counts as absent leaves the model
    /// as it is.
    proof fn lemma_detach_model(pre: &Self, post: &Self, m: Shape<(T, NodeColor)>, d: usize)
        requires
            pre.structure_ok(),
            pre.modeled(m, Some(d)),
            Self::detached(pre, post, d),
        ensures
            post.modeled(m, None),
    {
        assert forall|j: usize| post.live(j) implies #[trigger] post.tracks(m, j, None) by {
            assert(pre.live(j) && j != d);
            assert(pre.tracks(m, j, Some(d)));
            assert(pre.link_ok(j));
            assert(post.nd(j).key == pre.nd(j).key);
            if let Some(l) = pre.nd(j).left {
                if l != d {
                    assert(post.nd(l).key == pre.nd(l).key);
                }
            }
            if let Some(r) = pre.nd(j).right {
                if r != d {
                    assert(post.nd(r).key == pre.nd(r).key);
                }
            }
        }
        assert forall|a: usize, b: usize|
            post.live(a) && post.live(b) && #[trigger] post.kr(a) == #[trigger] post.kr(
                b,
            ) implies a == b by {
            assert(pre.live(a) && pre.live(b));
            assert(post.nd(a).key == pre.nd(a).key);
            assert(post.nd(b).key == pre.nd(b).key);
            assert(pre.kr(a) == pre.kr(b));
        }
        if let Some(r) = post.root {
            assert(pre.live(r));
            assert(post.nd(r).key == pre.nd(r).key);
        }
    }

    /// Takes the leaf `node` off its parent.
    fn detach(&mut self, node: usize)
        requires
            old(self).structure_ok(),
            old(self).colors_without(node),
            old(self).live(node),
            old(self).nd(node).left is None,
            old(self).nd(node).right is None,
            old(self).nd(node).parent is Some,
        ensures
            final(self).wf(),
            Self::gone(old(self), final(self), node),
            Self::detached(old(self), final(self), node),
    {
        let ghost d = Some(node);
        proof {
            assert(self.link_ok(node));
        }
        let parent = self.nodes[node].parent.unwrap();
        proof {
            assert(self.link_ok(parent));
        }
        let left = self._is_left_child(node);
        self.set_child(parent, left, None);
        self.release(node);
        proof {
            assert forall|i: usize| self.live(i) implies #[trigger] self.link_ok(i) by {
                assert(old(self).live(i));
                assert(old(self).link_ok(i));
            }
            assert forall|i: usize| self.live(i) implies #[trigger] self.color_ok(i, strict()) by {
                assert(old(self).live(i));
                assert(old(self).color_ok(i, Self::dd(d, None)));
                assert(old(self).link_ok(i));
            }
            assert forall|j: int| 0 <= j < self.free@.len() implies (#[trigger] self.free@[j])
                < self.nodes@.len() && !self.live(self.free@[j]) by {
                if j < old(self).free@.len() {
                    assert(!old(self).live(old(self).free@[j]));
                }
            }
            assert forall|j: int, k: int| 0 <= j < k < self.free@.len() implies #[trigger] self.free@[j]
                != #[trigger] self.free@[k] by {
                if k == old(self).free@.len() {
                    assert(!old(self).live(old(self).free@[j]));
                }
            }
            if let Some(r) = self.root {
                assert(old(self).live(r));
            }
            assert forall|j: usize| #[trigger] self.live(j) <==> old(self).live(j) && j != node by {}
            assert forall|j: usize| old(self).live(j) && j != node implies (
            #[trigger] self.nd(j)).key == old(self).nd(j).key && self.nd(j).color == old(
                self,
            ).nd(j).color && self.nd(j).left == (if old(self).nd(j).left == Some(node) {
                None
            } else {
                old(self).nd(j).left
            }) && self.nd(j).right == (if old(self).nd(j).right == Some(node) {
                None
            } else {
                old(self).nd(j).right
            }) by {
                assert(old(self).link_ok(j));
            }
        }
    }

    /// Removes the leaf `node`, which is not the root. A black leaf leaves
    /// its paths one black node short, which is repaired before the leaf is
    /// taken off its parent.
    fn unlink_leaf(&mut self, node: usize, double_black: bool)
        requires
            old(self).structure_ok(),
            old(self).colors_ok(strict()),
            old(self).live(node),
            old(self).nd(node).left is None,
            old(self).nd(node).right is None,
            old(self).nd(node).parent is Some,
            double_black == old(self).is_black(node),
        ensures
            final(self).wf(),
            Self::gone(old(self), final(self), node),
            final(self).painted(final(self).root) == old(self).painted(old(self).root).without(
                old(self).nd(node).key,
            ),
    {
        let ghost d = Some(node);
        let ghost m0 = self.painted(self.root);
        let ghost m1 = m0.hung(self.nd(node).key, Shape::Nil);
        let ghost mut mf = m1;
        proof {
            assert(self.link_ok(node));
            assert(self.color_ok(node, strict()));
            self.lemma_modeled();
            self.lemma_cut_model(m0, node);
        }
        if double_black {
            let ghost b = self.bh_max(self.nodes@.len());
            proof {
                assert forall|i: usize| self.live(i) implies (#[trigger] self.nt(i)).bh <= b by {
                    self.lemma_bh_max(self.nodes@.len(), i);
                }
                assert forall|i: usize| self.live(i) implies #[trigger] self.color_ok(
                    i,
                    Self::dd(d, d),
                ) by {
                    assert(self.color_ok(i, strict()));
                }
            }
            let Ghost(repaired) = self._delete_repair(node, Ghost(d), Ghost(b), Ghost(m1));
            proof {
                mf = repaired;
                assert(self.nt(node).live == old(self).nt(node).live);
            }
        } else {
            proof {
                assert forall|i: usize| self.live(i) implies #[trigger] self.color_ok(
                    i,
                    Self::dd(d, None),
                ) by {
                    assert(self.color_ok(i, strict()));
                }
            }
        }
        let ghost mid = *self;
        self.detach(node);
        proof {
            assert forall|i: usize| #[trigger] self.live(i) <==> old(self).live(i) && i != node by {
                assert(mid.nt(i).live == old(self).nt(i).live || i >= mid.nodes@.len());
            }
            assert forall|i: usize| self.live(i) implies (#[trigger] self.nd(i)).key == old(
                self,
            ).nd(i).key by {
                assert(mid.nd(i).key == old(self).nd(i).key);
            }
            Self::lemma_detach_model(&mid, self, mf, node);
            self.lemma_model_painted(mf);
        }
    }

    /// `post` is `pre` with the node `n` removed and its only child `c`,
    /// in black, in its place.
    spec fn spliced(pre: &Self, post: &Self, n: usize, c: usize) -> bool {
        &&& pre.live(n)
        &&& pre.live(c)
        &&& (pre.nd(n).left == Some(c) && pre.nd(n).right is None) || (pre.nd(n).right == Some(c)
            && pre.nd(n).left is None)
        &&& post.nodes@.len() == pre.nodes@.len()
        &&& post.root == pre.root
        &&& forall|j: usize| #[trigger] post.live(j) <==> pre.live(j) && j != n
        &&& forall|j: usize|
            pre.live(j) && j != n ==> (#[trigger] post.nd(j)).key == pre.nd(j).key
                && post.nd(j).color == (if j == c {
                NodeColor::Black
            } else {
                pre.nd(j).color
            }) && post.nd(j).left == (if pre.nd(j).left == Some(n) {
                Some(c)
            } else {
                pre.nd(j).left
            }) && post.nd(j).right == (if pre.nd(j).right == Some(n) {
                Some(c)
            } else {
                pre.nd(j).right
            })
    }

    /// Removing a node with one child puts the child, in black, in its
    /// place in the model.
    proof fn lemma_splice_model(
        pre: &Self,
        post: &Self,
        m: Shape<(T, NodeColor)>,
        n: usize,
        c: usize,
    )
        requires
            pre.structure_ok(),
            pre.modeled(m, None),
            pre.nd(n).parent is Some,
            Self::spliced(pre, post, n, c),
        ensures
            m.find(pre.nd(n).key).lone_kid() is Node,
            m.find(pre.nd(n).key).lone_kid()->item.0 == pre.nd(c).key,
            post.modeled(
                m.hung(pre.nd(n).key, m.find(pre.nd(n).key).lone_kid()).repainted(
                    pre.nd(c).key,
                    NodeColor::Black,
                ),
                None,
            ),
    {
        let kn = pre.nd(n).key;
        let kc = pre.nd(c).key;
        let g = m.find(kn);
        let left = pre.nd(n).left == Some(c);
        assert(pre.tracks(m, n, None));
        assert(pre.tracks(m, c, None));
        assert(pre.link_ok(n));
        assert(pre.link_ok(c));
        pre.lemma_model_child(m, n, left, None);
        g.lhs().lemma_root_key(kn, NodeColor::Black);
        g.rhs().lemma_root_key(kn, NodeColor::Black);
        let t = g.lone_kid();
        assert(t == m.find(kc));
        let m1 = m.hung(kn, t);
        m.lemma_bypassed(kn, None, None);
        m.lemma_hung_root(kn, t);
        let after = m1.repainted(kc, NodeColor::Black);
        m1.lemma_repainted(kc, NodeColor::Black, None, None);
        m1.lemma_root_key(kc, NodeColor::Black);
        assert forall|j: usize| post.live(j) implies #[trigger] post.tracks(after, j, None) by {
            assert(pre.live(j) && j != n);
            assert(pre.tracks(m, j, None));
            assert(pre.link_ok(j));
            assert(pre.kr(j) != pre.kr(n));
            assert(post.nd(j).key == pre.nd(j).key);
            let s = m.find(pre.nd(j).key);
            m.lemma_find(pre.nd(j).key, None, None);
            s.lemma_children(None, None);
            s.lemma_hung_root(kn, t);
            s.lhs().lemma_hung_root(kn, t);
            s.rhs().lemma_hung_root(kn, t);
            assert(m1.find(pre.nd(j).key) == s.hung(kn, t));
            if j != c {
                assert(pre.kr(j) != pre.kr(c));
            }
            if let Some(l) = pre.nd(j).left {
                assert(pre.link_ok(l));
                if l != n {
                    assert(pre.kr(l) != pre.kr(n));
                    assert(post.nd(l).key == pre.nd(l).key);
                }
            }
            if let Some(r) = pre.nd(j).right {
                assert(pre.link_ok(r));
                if r != n {
                    assert(pre.kr(r) != pre.kr(n));
                    assert(post.nd(r).key == pre.nd(r).key);
                }
            }
            assert(post.nd(c).key == kc);
        }
        assert forall|a: usize, b: usize|
            post.live(a) && post.live(b) && #[trigger] post.kr(a) == #[trigger] post.kr(
                b,
            ) implies a == b by {
            assert(pre.live(a) && pre.live(b));
            assert(post.nd(a).key == pre.nd(a).key);
            assert(post.nd(b).key == pre.nd(b).key);
            assert(pre.kr(a) == pre.kr(b));
        }
        if let Some(r) = pre.root {
            assert(pre.kr(r) != pre.kr(n));
            assert(post.nd(r).key == pre.nd(r).key);
        }
    }

    /// Removes `node`, which is not the root and has the one child
    /// `replacement`: the child takes its place and turns black.
    #[verifier::rlimit(40)]
    fn splice(
        &mut self,
        node: usize,
        replacement: usize,
        double_black: bool,
    )
        requires
            old(self).structure_ok(),
            old(self).colors_ok(strict()),
            old(self).live(node),
            old(self).nd(node).parent is Some,
            (old(self).nd(node).left == Some(replacement) && old(self).nd(node).right is None) || (
            old(self).nd(node).right == Some(replacement) && old(self).nd(node).left is None),
            double_black == (old(self).is_black(node) && old(self).is_black(replacement)),
        ensures
            final(self).wf(),
            Self::gone(old(self), final(self), node),
            final(self).painted(final(self).root) == old(self).painted(old(self).root).without(
                old(self).nd(node).key,
            ),
    {
        proof {
            assert(self.link_ok(node));
            assert(self.color_ok(node, strict()));
            assert(self.link_ok(replacement));
            assert(self.color_ok(replacement, strict()));
            if let Some(c) = self.nd(replacement).left {
                assert(self.color_ok(c, strict()));
                assert(self.link_ok(c));
            }
            if let Some(c) = self.nd(replacement).right {
                assert(self.color_ok(c, strict()));
                assert(self.link_ok(c));
            }
        }
        let parent = self.nodes[node].parent.unwrap();
        proof {
            assert(self.link_ok(parent));
            assert(self.color_ok(parent, strict()));
        }
        // The child takes the place of the node below the parent.
        if !self._is_left_child(node) {
            self.set_right(parent, Some(replacement));
        } else {
            self.set_left(parent, Some(replacement));
        }
        self.set_parent(replacement, Some(parent));
        if !double_black {
            self._change_color(replacement, NodeColor::Black);
        } else {
            // A black node with one child has a red child.
            assert(false);
            self._delete_repair(replacement, Ghost(None), Ghost(0), Ghost(Shape::Nil));
        }
        self.release(node);
        proof {
            let ghost on = old(self).nt(node);
            let ghost nr = Note { live: true, lo: on.lo, hi: on.hi, bh: 1 };
            self.notes@ = self.notes@.update(replacement as int, nr);
            assert forall|i: usize| self.live(i) implies #[trigger] self.link_ok(i) by {
                assert(old(self).live(i));
                assert(old(self).link_ok(i));
            }
            assert forall|i: usize| self.live(i) implies #[trigger] self.color_ok(i, strict()) by {
                assert(old(self).live(i));
                assert(old(self).color_ok(i, strict()));
                assert(old(self).link_ok(i));
            }
            assert forall|j: int| 0 <= j < self.free@.len() implies (#[trigger] self.free@[j])
                < self.nodes@.len() && !self.live(self.free@[j]) by {
                if j < old(self).free@.len() {
                    assert(!old(self).live(old(self).free@[j]));
                }
            }
            assert forall|j: int, k: int| 0 <= j < k < self.free@.len() implies #[trigger] self.free@[j]
                != #[trigger] self.free@[k] by {
                if k == old(self).free@.len() {
                    assert(!old(self).live(old(self).free@[j]));
                }
            }
            if let Some(r) = self.root {
                assert(old(self).live(r));
            }
            assert forall|j: usize| #[trigger] self.live(j) <==> old(self).live(j) && j != node by {}
            assert forall|j: usize| old(self).live(j) && j != node implies (#[trigger] self.nd(
                j,
            )).key == old(self).nd(j).key && self.nd(j).color == (if j == replacement {
                NodeColor::Black
            } else {
                old(self).nd(j).color
            }) && self.nd(j).left == (if old(self).nd(j).left == Some(node) {
                Some(replacement)
            } else {
                old(self).nd(j).left
            }) && self.nd(j).right == (if old(self).nd(j).right == Some(node) {
                Some(replacement)
            } else {
                old(self).nd(j).right
            }) by {
                assert(old(self).link_ok(j));
            }
            let m0 = old(self).painted(old(self).root);
            old(self).lemma_modeled();
            Self::lemma_splice_model(old(self), self, m0, node, replacement);
            self.lemma_model_painted(
                m0.hung(old(self).nd(node).key, m0.find(old(self).nd(node).key).lone_kid()).repainted(
                    old(self).nd(replacement).key,
                    NodeColor::Black,
                ),
            );
        }
    }

    /// Removes the root, which is a leaf: the tree becomes empty.
    fn drop_root(&mut self, node: usize)
        requires
            old(self).wf(),
            old(self).live(node),
            old(self).nd(node).parent is None,
            old(self).nd(node).left is None,
            old(self).nd(node).right is None,
        ensures
            final(self).wf(),
            Self::gone(old(self), final(self), node),
            final(self).painted(final(self).root) == old(self).painted(old(self).root).without(
                old(self).nd(node).key,
            ),
    {
        proof {
            assert(self.link_ok(node));
            self.lemma_painted(node);
            assert(self.painted(None) == Shape::<(T, NodeColor)>::Nil);
            assert(self.painted(self.root).lone_kid() is Nil);
            assert forall|i: usize| self.live(i) implies i == node by {
                self.lemma_member_up(i);
                self.lemma_members(node);
                assert(self.members(None) == Set::<usize>::empty());
            }
        }
        self.root = None;
        self.release(node);
        proof {
            assert forall|i: usize| !self.live(i) by {
                if i != node {
                    assert(!old(self).live(i));
                }
            }
            assert forall|j: int| 0 <= j < self.free@.len() implies (#[trigger] self.free@[j])
                < self.nodes@.len() && !self.live(self.free@[j]) by {
                if j < old(self).free@.len() {
                    assert(!old(self).live(old(self).free@[j]));
                }
            }
            assert forall|j: int, k: int| 0 <= j < k < self.free@.len() implies #[trigger] self.free@[j]
                != #[trigger] self.free@[k] by {
                if k == old(self).free@.len() {
                    assert(!old(self).live(old(self).free@[j]));
                }
            }
        }
    }

    /// Removes the key of the root, which has the one child `replacement`:
    /// the root takes the key of the child, and the child leaves the tree.
    fn lift_child(&mut self, node: usize, replacement: usize)
        requires
            old(self).wf(),
            old(self).live(node),
            old(self).nd(node).parent is None,
            (old(self).nd(node).left == Some(replacement) && old(self).nd(node).right is None) || (
            old(self).nd(node).right == Some(replacement) && old(self).nd(node).left is None),
        ensures
            final(self).wf(),
            Self::removed(old(self), final(self), node, replacement),
            final(self).painted(final(self).root) == old(self).painted(old(self).root).without(
                old(self).nd(node).key,
            ),
    {
        proof {
            assert(self.link_ok(node));
            assert(self.color_ok(node, strict()));
            assert(self.link_ok(replacement));
            assert(self.color_ok(replacement, strict()));
            self.lemma_painted(node);
            self.lemma_painted(replacement);
            assert(self.painted(None) == Shape::<(T, NodeColor)>::Nil);
            if let Some(c) = self.nd(replacement).left {
                assert(self.color_ok(c, strict()));
            }
            if let Some(c) = self.nd(replacement).right {
                assert(self.color_ok(c, strict()));
            }
        }
        let temp: T = self.nodes[replacement].key;
        self.nodes[node].key = temp;
        self.set_left(node, None);
        self.set_right(node, None);
        self.release(replacement);
        proof {
            assert forall|i: usize| self.live(i) implies #[trigger] self.link_ok(i) by {
                assert(old(self).live(i));
                assert(old(self).link_ok(i));
            }
            assert forall|i: usize| self.live(i) implies #[trigger] self.color_ok(i, strict()) by {
                assert(old(self).live(i));
                assert(old(self).color_ok(i, strict()));
                assert(old(self).link_ok(i));
            }
            assert forall|j: int| 0 <= j < self.free@.len() implies (#[trigger] self.free@[j])
                < self.nodes@.len() && !self.live(self.free@[j]) by {
                if j < old(self).free@.len() {
                    assert(!old(self).live(old(self).free@[j]));
                }
            }
            assert forall|j: int, k: int| 0 <= j < k < self.free@.len() implies #[trigger] self.free@[j]
                != #[trigger] self.free@[k] by {
                if k == old(self).free@.len() {
                    assert(!old(self).live(old(self).free@[j]));
                }
            }
            self.lemma_painted(node);
            assert(self.painted(None) == Shape::<(T, NodeColor)>::Nil);
            let m0 = old(self).painted(old(self).root);
            let lone = m0.lone_kid();
            assert(lone == old(self).painted(Some(replacement)));
            assert(m0.hung(old(self).nd(node).key, lone) == lone);
            assert(lone.repainted(old(self).nd(replacement).key, NodeColor::Black)
                == lone.with_color(NodeColor::Black));
        }
    }

    /// The note `a` with the bound `from` replaced by `to`.
    spec fn rebound(a: Note, from: int, to: int) -> Note {
        Note {
            lo: if a.lo == Some(from) {
                Some(to)
            } else {
                a.lo
            },
            hi: if a.hi == Some(from) {
                Some(to)
            } else {
                a.hi
            },
            ..a
        }
    }

    /// The bounds recorded for a node of a valid tree are ranks of keys of
    /// the tree.
    proof fn lemma_bound_keys(&self, i: usize)
        requires
            self.structure_ok(),
            self.colors_ok(strict()),
            self.live(i),
        ensures
            self.nt(i).lo matches Some(v) ==> exists|a: usize|
                self.live(a) && #[trigger] self.kr(a) == v,
            self.nt(i).hi matches Some(v) ==> exists|a: usize|
                self.live(a) && #[trigger] self.kr(a) == v,
        decreases self.top() - self.rk(Some(i)),
    {
        assert(self.link_ok(i));
        if let Some(p) = self.nd(i).parent {
            self.lemma_descend(p);
            self.lemma_top(p);
            self.lemma_bound_keys(p);
            assert(self.link_ok(p));
            assert(self.live(p) && self.kr(p) == self.kr(p));
        }
    }

    /// Giving a node the next smaller key gives it that key in the model.
    proof fn lemma_rekey_model(pre: &Self, post: &Self, m: Shape<(T, NodeColor)>, z: usize, k: T)
        requires
            pre.structure_ok(),
            pre.colors_ok(strict()),
            pre.modeled(m, None),
            pre.live(z),
            k.rank() < pre.kr(z),
            forall|i: usize|
                pre.live(i) && i != z ==> #[trigger] pre.kr(i) < k.rank() || pre.kr(z) < pre.kr(i),
            post.nodes@.len() == pre.nodes@.len(),
            post.root == pre.root,
            post.nd(z).key == k,
            forall|i: usize|
                i < pre.nodes@.len() && i != z ==> (#[trigger] post.nd(i)).key == pre.nd(i).key,
            forall|i: usize|
                i < pre.nodes@.len() ==> (#[trigger] post.nd(i)).left == pre.nd(i).left && post.nd(
                    i,
                ).right == pre.nd(i).right && post.nd(i).color == pre.nd(i).color,
            forall|i: usize|
                i < pre.nodes@.len() ==> (#[trigger] post.nt(i)).live == pre.nt(i).live,
        ensures
            post.modeled(m.rekeyed(pre.nd(z).key, k), None),
    {
        let big = pre.nd(z).key;
        let after = m.rekeyed(big, k);
        pre.lemma_model_painted(m);
        pre.lemma_items_keys();
        assert forall|k2: T| #[trigger] m.unpainted().items().contains(k2) implies k2.rank()
            < k.rank() || big.rank() <= k2.rank() by {
            assert(pre.painted(pre.root).unpainted().items().contains(k2));
            assert(pre.has_key(k2));
            let j = choose|j: usize| pre.live(j) && (#[trigger] pre.nd(j)).key == k2;
            if j != z {
                assert(pre.kr(j) < k.rank() || pre.kr(z) < pre.kr(j));
            }
        }
        m.lemma_rekeyed(big, k, None, None);
        assert(pre.tracks(m, z, None));
        assert(pre.link_ok(z));
        assert(post.tracks(after, z, None)) by {
            if let Some(l) = pre.nd(z).left {
                assert(post.nd(l).key == pre.nd(l).key);
            }
            if let Some(r) = pre.nd(z).right {
                assert(post.nd(r).key == pre.nd(r).key);
            }
        }
        assert forall|j: usize| post.live(j) implies #[trigger] post.tracks(after, j, None) by {
            assert(post.nt(j).live == pre.nt(j).live);
            assert(pre.live(j));
            if j != z {
                assert(pre.tracks(m, j, None));
                assert(pre.link_ok(j));
                assert(pre.kr(j) < k.rank() || pre.kr(z) < pre.kr(j));
                assert(post.nd(j).key == pre.nd(j).key);
                let s = m.find(pre.nd(j).key);
                m.lemma_find(pre.nd(j).key, None, None);
                s.lemma_rekey_root(big, k);
                s.lhs().lemma_rekey_root(big, k);
                s.rhs().lemma_rekey_root(big, k);
                if let Some(l) = pre.nd(j).left {
                    assert(pre.link_ok(l));
                    if l != z {
                        assert(post.nd(l).key == pre.nd(l).key);
                        assert(pre.kr(l) < k.rank() || pre.kr(z) < pre.kr(l));
                    }
                }
                if let Some(r) = pre.nd(j).right {
                    assert(pre.link_ok(r));
                    if r != z {
                        assert(post.nd(r).key == pre.nd(r).key);
                        assert(pre.kr(r) < k.rank() || pre.kr(z) < pre.kr(r));
                    }
                }
            }
        }
        assert forall|a: usize, b: usize|
            post.live(a) && post.live(b) && #[trigger] post.kr(a) == #[trigger] post.kr(
                b,
            ) implies a == b by {
            assert(post.nt(a).live == pre.nt(a).live);
            assert(post.nt(b).live == pre.nt(b).live);
            if a != z {
                assert(post.nd(a).key == pre.nd(a).key);
                assert(pre.kr(a) < k.rank() || pre.kr(z) < pre.kr(a));
            }
            if b != z {
                assert(post.nd(b).key == pre.nd(b).key);
                assert(pre.kr(b) < k.rank() || pre.kr(z) < pre.kr(b));
            }
            if a != z && b != z {
                assert(pre.kr(a) == pre.kr(b));
            }
        }
        if let Some(r) = pre.root {
            if r != z {
                assert(post.nd(r).key == pre.nd(r).key);
                assert(pre.kr(r) < k.rank() || pre.kr(z) < pre.kr(r));
            }
        }
    }

    /// Gives `node` the key `k`, which is smaller than its own, with no
    /// other key of the tree between the two.
    fn give_key(&mut self, node: usize, k: T)
        requires
            old(self).wf(),
            old(self).live(node),
            k.rank() < old(self).kr(node),
            forall|i: usize|
                old(self).live(i) && i != node ==> #[trigger] old(self).kr(i) < k.rank() || old(
                    self,
                ).kr(node) < old(self).kr(i),
        ensures
            final(self).wf(),
            final(self).nodes@.len() == old(self).nodes@.len(),
            final(self).nd(node).key == k,
            forall|i: usize|
                i < old(self).nodes@.len() && i != node ==> (#[trigger] final(self).nd(i)).key
                    == old(self).nd(i).key,
            forall|i: usize|
                i < old(self).nodes@.len() ==> (#[trigger] final(self).nd(i)).parent == old(
                    self,
                ).nd(i).parent && final(self).nd(i).left == old(self).nd(i).left && final(self).nd(
                    i,
                ).right == old(self).nd(i).right && final(self).nd(i).color == old(self).nd(
                    i,
                ).color,
            forall|i: usize|
                i < old(self).nodes@.len() ==> (#[trigger] final(self).nt(i)).live == old(self).nt(
                    i,
                ).live,
            final(self).root == old(self).root,
    {
        let ghost big = self.kr(node);
        let ghost small = k.rank();
        proof {
            assert(self.link_ok(node));
            self.lemma_bound_keys(node);
        }
        self.nodes[node].key = k;
        proof {
            let ghost before = old(self).notes@;
            self.notes@ = Seq::new(before.len(), |j: int| Self::rebound(before[j], big, small));
            assert forall|i: usize| self.live(i) implies #[trigger] self.link_ok(i) by {
                assert(old(self).live(i));
                assert(old(self).link_ok(i));
                if i != node {
                    assert(old(self).kr(i) < small || big < old(self).kr(i));
                }
                if let Some(l) = old(self).nd(i).left {
                    assert(old(self).link_ok(l));
                }
                if let Some(r) = old(self).nd(i).right {
                    assert(old(self).link_ok(r));
                }
            }
            assert forall|i: usize| self.live(i) implies #[trigger] self.color_ok(i, strict()) by {
                assert(old(self).live(i));
                assert(old(self).color_ok(i, strict()));
                assert(old(self).link_ok(i));
                assert(self.nt(i).bh == old(self).nt(i).bh);
                if let Some(l) = old(self).nd(i).left {
                    assert(self.nt(l).bh == old(self).nt(l).bh);
                }
                if let Some(r) = old(self).nd(i).right {
                    assert(self.nt(r).bh == old(self).nt(r).bh);
                }
            }
            assert forall|j: int| 0 <= j < self.free@.len() implies (#[trigger] self.free@[j])
                < self.nodes@.len() && !self.live(self.free@[j]) by {
                assert(!old(self).live(old(self).free@[j]));
            }
            if let Some(r) = self.root {
                assert(old(self).live(r));
            }
            if self.root is None {
                assert forall|i: usize| !self.live(i) by {
                    assert(!old(self).live(i));
                }
            }
        }
    }

    /// Removes the key of `node` from the tree. A node with two children
    /// stays in its place and takes the key of the node with the next
    /// smaller key, and that node is removed in its stead. A root with one
    /// child stays too: it takes the key of the child, and the child is
    /// removed. Any other node is removed itself. Returns the node that has
    /// left the tree.
    fn _delete_private(&mut self, node: usize) -> (out: Ghost<usize>)
        requires
            old(self).structure_ok(),
            old(self).colors_ok(strict()),
            old(self).live(node),
        ensures
            final(self).wf(),
            Self::removed(old(self), final(self), node, out@),
            match (old(self).nd(node).left, old(self).nd(node).right) {
                (Some(l), Some(_)) => out@ != node && old(self).painted(Some(l)).max_key() == Some(
                    old(self).nd(out@).key,
                ),
                (Some(c), None) | (None, Some(c)) => out@ == (if old(self).nd(node).parent
                    is None {
                    c
                } else {
                    node
                }),
                (None, None) => out@ == node,
            },
            out@ != node ==> final(self).live(node) && final(self).nd(node).key == old(self).nd(
                out@,
            ).key,
            final(self).painted(final(self).root) == old(self).painted(old(self).root).deleted(
                old(self).nd(node).key,
            ),
        decreases (if old(self).nd(node).left is Some && old(self).nd(node).right is Some {
                1nat
            } else {
                0nat
            }),
    {
        let replacement = self._find_replacement_node(node);
        let parent = self.nodes[node].parent;
        let ghost m0 = self.painted(self.root);
        proof {
            assert(self.link_ok(node));
            self.lemma_modeled();
            assert(self.tracks(m0, node, None));
            self.lemma_model_below(m0, node);
            self.lemma_painted(node);
            assert(self.painted(None) == Shape::<(T, NodeColor)>::Nil);
            if let Some(l) = self.nd(node).left {
                self.lemma_painted(l);
            }
            if let Some(r) = self.nd(node).right {
                self.lemma_painted(r);
            }
        }
        let double_black: bool = self._return_color(node) == NodeColor::Black && match replacement {
            None => true,
            Some(r) => self._return_color(r) == NodeColor::Black,
        };
        match replacement {
            None => {
                // The node is a leaf.
                match parent {
                    None => {
                        self.drop_root(node);
                    },
                    Some(_) => {
                        self.unlink_leaf(node, double_black);
                    },
                }
                Ghost(node)
            },
            Some(r) => {
                if self.nodes[node].left.is_none() || self.nodes[node].right.is_none() {
                    // The node has one child.
                    match parent {
                        None => {
                            self.lift_child(node, r);
                            Ghost(r)
                        },
                        Some(_) => {
                            self.splice(node, r, double_black);
                            Ghost(node)
                        },
                    }
                } else {
                    // The node has two children: the node with the next
                    // smaller key leaves the tree in its stead, and hands
                    // its key over.
                    let temp: T = self.nodes[r].key;
                    proof {
                        assert(self.link_ok(r));
                        assert forall|i: usize| self.live(i) && i != node && i != r implies (
                        #[trigger] self.kr(i)) < temp.rank() || self.kr(node) < self.kr(i) by {
                            if self.kr(i) == self.kr(node) {
                                self.lemma_unique(i, node);
                            }
                            if self.kr(i) == self.kr(r) {
                                self.lemma_unique(i, r);
                            }
                            self.lemma_gap(r, i);
                        }
                    }
                    proof {
                        self.lemma_model_below(m0, r);
                        self.lemma_painted(r);
                        assert(self.tracks(m0, r, None));
                    }
                    let Ghost(_g) = self._delete_private(r);
                    let ghost mid = *self;
                    proof {
                        mid.lemma_modeled();
                        assert forall|i: usize| mid.live(i) && i != node implies (
                        #[trigger] mid.kr(i)) < temp.rank() || mid.kr(node) < mid.kr(i) by {
                            assert(old(self).live(i) && i != r);
                            assert(mid.nd(i).key == old(self).nd(i).key);
                            assert(old(self).kr(i) < temp.rank() || old(self).kr(node) < old(
                                self,
                            ).kr(i));
                        }
                        assert(mid.live(node));
                        assert(mid.nd(node).key == old(self).nd(node).key);
                    }
                    self.give_key(node, temp);
                    proof {
                        Self::lemma_rekey_model(
                            &mid,
                            self,
                            mid.painted(mid.root),
                            node,
                            temp,
                        );
                        self.lemma_model_painted(
                            mid.painted(mid.root).rekeyed(old(self).nd(node).key, temp),
                        );
                        assert forall|i: usize| #[trigger] self.live(i) <==> old(self).live(i) && i
                            != r by {
                            assert(mid.live(i) <==> old(self).live(i) && i != r);
                            if i < mid.nodes@.len() {
                                assert(self.nt(i).live == mid.nt(i).live);
                            }
                        }
                        assert forall|i: usize| self.live(i) && i != node implies (
                        #[trigger] self.nd(i)).key == old(self).nd(i).key by {
                            assert(mid.live(i));
                            assert(mid.nd(i).key == old(self).nd(i).key);
                        }
                    }
                    Ghost(r)
                }
            },
        }
    }
}

} // verus!
