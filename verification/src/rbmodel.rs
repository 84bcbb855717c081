//! Red-black insertion and removal on trees as values: what a tree looks
//! like after a key was added to it or taken out of it.

use vstd::prelude::*;
use crate::key::OrderedKey;
use crate::rbtree::NodeColor;
use crate::shape::{above, below, Shape};

verus! {

/// What the links of a node show of the tree below it: the key and the
/// color of the node, and the keys of its two children.
pub ghost struct Glimpse<T> {
    pub item: (T, NodeColor),
    pub left: Option<T>,
    pub right: Option<T>,
}

// Parts of a tree.
impl<T: OrderedKey> Shape<(T, NodeColor)> {
    /// The key at the root.
    pub open spec fn root_key(self) -> Option<T> {
        match self {
            Shape::Nil => None,
            Shape::Node { left, item, right } => Some(item.0),
        }
    }

    /// The same tree with the root in the color `c`.
    pub open spec fn with_color(self, c: NodeColor) -> Self {
        match self {
            Shape::Nil => Shape::Nil,
            Shape::Node { left, item, right } => Shape::Node { left, item: (item.0, c), right },
        }
    }

    /// What the links of the root show.
    pub open spec fn glimpse(self) -> Glimpse<T> {
        Glimpse { item: self->item, left: self.lhs().root_key(), right: self.rhs().root_key() }
    }

    /// The child of the root on the left if `left` is true, else on the
    /// right.
    pub open spec fn kid(self, left: bool) -> Self {
        if left {
            self.lhs()
        } else {
            self.rhs()
        }
    }

    /// The tree with `t` as the child of the root on the left if `left` is
    /// true, else on the right.
    pub open spec fn with_kid(self, left: bool, t: Self) -> Self {
        match self {
            Shape::Nil => Shape::Nil,
            Shape::Node { left: l, item, right: r } => if left {
                Shape::node(t, item, *r)
            } else {
                Shape::node(*l, item, t)
            },
        }
    }

    /// The left subtree if it is not empty, else the right one.
    pub open spec fn lone_kid(self) -> Self {
        if self.lhs() is Node {
            self.lhs()
        } else {
            self.rhs()
        }
    }

    /// A red node with the key `below_k` hangs on the side `inner` below a
    /// red child, on the side `side`, of the root; it has no red child, and
    /// the red child of the root has no other red child.
    pub open spec fn red_pair(self, below_k: T, side: bool, inner: bool) -> bool {
        let p = self.kid(side);
        let x = p.kid(inner);
        &&& self is Node
        &&& p.root_is_red()
        &&& x.root_is_red()
        &&& x.root_key() == Some(below_k)
        &&& !x.lhs().root_is_red()
        &&& !x.rhs().root_is_red()
        &&& !p.kid(!inner).root_is_red()
    }

    /// The largest key: the key at the end of the right spine.
    pub open spec fn max_key(self) -> Option<T>
        decreases self,
    {
        match self {
            Shape::Nil => None,
            Shape::Node { left, item, right } => if *right is Nil {
                Some(item.0)
            } else {
                right.max_key()
            },
        }
    }
}

// Descent by key.
impl<T: OrderedKey> Shape<(T, NodeColor)> {
    /// Search-tree order of the keys, all of them strictly between `lo`
    /// and `hi`.
    pub open spec fn sorted_within(self, lo: Option<int>, hi: Option<int>) -> bool
        decreases self,
    {
        match self {
            Shape::Nil => true,
            Shape::Node { left, item, right } => {
                &&& above(lo, item.0.rank())
                &&& below(hi, item.0.rank())
                &&& left.sorted_within(lo, Some(item.0.rank()))
                &&& right.sorted_within(Some(item.0.rank()), hi)
            },
        }
    }

    /// The subtree whose root holds the key `k`, found by comparing and
    /// descending; empty if there is none.
    pub open spec fn find(self, k: T) -> Self
        decreases self,
    {
        match self {
            Shape::Nil => Shape::Nil,
            Shape::Node { left, item, right } => if k.rank() < item.0.rank() {
                left.find(k)
            } else if item.0.rank() < k.rank() {
                right.find(k)
            } else {
                self
            },
        }
    }

    /// The descent for `k` passes the node that holds `at`.
    pub open spec fn passes(self, k: T, at: T) -> bool
        decreases self,
    {
        match self {
            Shape::Nil => false,
            Shape::Node { left, item, right } => if at.rank() < item.0.rank() {
                k.rank() < item.0.rank() && left.passes(k, at)
            } else if item.0.rank() < at.rank() {
                item.0.rank() < k.rank() && right.passes(k, at)
            } else {
                true
            },
        }
    }

    /// The node above the node of `k`, and whether that node is its left
    /// child; none for the root and for a key that is not there.
    pub open spec fn place_of(self, k: T) -> Option<(T, bool)>
        decreases self,
    {
        match self {
            Shape::Nil => None,
            Shape::Node { left, item, right } => if k.rank() < item.0.rank() {
                if left.root_key() matches Some(r) && r.rank() == k.rank() {
                    Some((item.0, true))
                } else {
                    left.place_of(k)
                }
            } else if item.0.rank() < k.rank() {
                if right.root_key() matches Some(r) && r.rank() == k.rank() {
                    Some((item.0, false))
                } else {
                    right.place_of(k)
                }
            } else {
                None
            },
        }
    }

    /// A subtree found by its key holds that key at its root, and is
    /// sorted within narrower bounds.
    pub proof fn lemma_find(self, k: T, lo: Option<int>, hi: Option<int>)
        requires
            self.sorted_within(lo, hi),
        ensures
            self.find(k) is Node ==> self.find(k)->item.0 == k && above(lo, k.rank()) && below(
                hi,
                k.rank(),
            ),
            self.find(k).sorted_within(lo, hi),
        decreases self,
    {
        match self {
            Shape::Nil => {},
            Shape::Node { left, item, right } => {
                if k.rank() < item.0.rank() {
                    left.lemma_find(k, lo, Some(item.0.rank()));
                    left.find(k).lemma_loosen(lo, Some(item.0.rank()), lo, hi);
                } else if item.0.rank() < k.rank() {
                    right.lemma_find(k, Some(item.0.rank()), hi);
                    right.find(k).lemma_loosen(Some(item.0.rank()), hi, lo, hi);
                } else {
                    T::lemma_rank_injective(k, item.0);
                }
            },
        }
    }

    /// The subtrees of a sorted tree are sorted within the same bounds,
    /// and their keys lie on their side of the key of the root.
    pub proof fn lemma_children(self, lo: Option<int>, hi: Option<int>)
        requires
            self.sorted_within(lo, hi),
        ensures
            self.lhs().sorted_within(lo, hi),
            self.rhs().sorted_within(lo, hi),
            self.lhs().root_key() matches Some(l) ==> above(lo, l.rank()) && below(hi, l.rank())
                && l.rank() < self->item.0.rank(),
            self.rhs().root_key() matches Some(r) ==> above(lo, r.rank()) && below(hi, r.rank())
                && self->item.0.rank() < r.rank(),
    {
        match self {
            Shape::Nil => {},
            Shape::Node { left, item, right } => {
                left.lemma_loosen(lo, Some(item.0.rank()), lo, hi);
                right.lemma_loosen(Some(item.0.rank()), hi, lo, hi);
            },
        }
    }

    /// Bounds may be widened.
    pub proof fn lemma_loosen(
        self,
        lo: Option<int>,
        hi: Option<int>,
        lo2: Option<int>,
        hi2: Option<int>,
    )
        requires
            self.sorted_within(lo, hi),
            lo2 matches Some(l2) ==> lo matches Some(l) && l2 <= l,
            hi2 matches Some(h2) ==> hi matches Some(h) && h <= h2,
        ensures
            self.sorted_within(lo2, hi2),
        decreases self,
    {
        match self {
            Shape::Nil => {},
            Shape::Node { left, item, right } => {
                left.lemma_loosen(lo, Some(item.0.rank()), lo2, Some(item.0.rank()));
                right.lemma_loosen(Some(item.0.rank()), hi, Some(item.0.rank()), hi2);
            },
        }
    }

    /// The order of the painted tree is the order of its keys.
    pub proof fn lemma_sorted(self, lo: Option<int>, hi: Option<int>)
        ensures
            self.sorted_within(lo, hi) == self.unpainted().ordered_within(lo, hi),
        decreases self,
    {
        match self {
            Shape::Nil => {},
            Shape::Node { left, item, right } => {
                left.lemma_sorted(lo, Some(item.0.rank()));
                right.lemma_sorted(Some(item.0.rank()), hi);
            },
        }
    }

    /// In a sorted tree, a key that is found below a subtree found by its
    /// own key is found from the root the same way.
    pub proof fn lemma_find_below(self, k: T, below_k: T, lo: Option<int>, hi: Option<int>)
        requires
            self.sorted_within(lo, hi),
            self.find(k).find(below_k) is Node,
        ensures
            self.find(below_k) == self.find(k).find(below_k),
            self.passes(below_k, k),
        decreases self,
    {
        match self {
            Shape::Nil => {},
            Shape::Node { left, item, right } => {
                let m = Some(item.0.rank());
                if k.rank() < item.0.rank() {
                    left.lemma_find(k, lo, m);
                    left.find(k).lemma_find(below_k, lo, m);
                    left.lemma_find_below(k, below_k, lo, m);
                } else if item.0.rank() < k.rank() {
                    right.lemma_find(k, m, hi);
                    right.find(k).lemma_find(below_k, m, hi);
                    right.lemma_find_below(k, below_k, m, hi);
                } else {
                }
            },
        }
    }

    /// Where the descent for `k` passes the node that holds `at`, it goes
    /// on below that node.
    pub proof fn lemma_passes(self, k: T, at: T)
        requires
            self.passes(k, at),
        ensures
            self.find(at) is Node,
            self.find(k) == self.find(at).find(k),
        decreases self,
    {
        match self {
            Shape::Nil => {},
            Shape::Node { left, item, right } => {
                if at.rank() < item.0.rank() {
                    left.lemma_passes(k, at);
                } else if item.0.rank() < at.rank() {
                    right.lemma_passes(k, at);
                } else {
                }
            },
        }
    }

    /// The descent that passes a node and turns to one of its children
    /// passes that child.
    pub proof fn lemma_passes_child(self, k: T, at: T, child: T, lo: Option<int>, hi: Option<int>)
        requires
            self.sorted_within(lo, hi),
            self.passes(k, at),
            (k.rank() < at.rank() && self.find(at).lhs().root_key() == Some(child)) || (at.rank()
                < k.rank() && self.find(at).rhs().root_key() == Some(child)),
        ensures
            self.passes(k, child),
        decreases self,
    {
        match self {
            Shape::Nil => {},
            Shape::Node { left, item, right } => {
                let m = Some(item.0.rank());
                if at.rank() < item.0.rank() {
                    assert(self.find(at) == left.find(at));
                    left.lemma_passes_child(k, at, child, lo, m);
                    left.lemma_find(at, lo, m);
                    left.find(at).lemma_children(lo, m);
                    assert(child.rank() < item.0.rank());
                } else if item.0.rank() < at.rank() {
                    assert(self.find(at) == right.find(at));
                    right.lemma_passes_child(k, at, child, m, hi);
                    right.lemma_find(at, m, hi);
                    right.find(at).lemma_children(m, hi);
                    assert(item.0.rank() < child.rank());
                } else {
                    assert(self.find(at) == self);
                    self.lemma_children(lo, hi);
                    if k.rank() < at.rank() {
                        assert(left.root_key() == Some(child));
                        assert(left.passes(k, child));
                    } else {
                        assert(right.root_key() == Some(child));
                        assert(right.passes(k, child));
                    }
                }
            },
        }
    }

    /// The root key of a tree is kept by repainting and found at the root.
    pub proof fn lemma_root_key(self, k: T, c: NodeColor)
        ensures
            self.repainted(k, c).root_key() == self.root_key(),
            self.root_key() matches Some(r) ==> self.find(r) == self,
            self is Nil <==> self.root_key() is None,
    {
    }

    /// A key that is found is a key of the tree.
    pub proof fn lemma_found_is_item(self, k: T)
        requires
            self.find(k) is Node,
        ensures
            self.unpainted().items().contains(k),
        decreases self,
    {
        match self {
            Shape::Nil => {},
            Shape::Node { left, item, right } => {
                if k.rank() < item.0.rank() {
                    left.lemma_found_is_item(k);
                } else if item.0.rank() < k.rank() {
                    right.lemma_found_is_item(k);
                } else {
                    T::lemma_rank_injective(k, item.0);
                }
            },
        }
    }

    /// A key of a sorted tree is found.
    pub proof fn lemma_item_is_found(self, k: T, lo: Option<int>, hi: Option<int>)
        requires
            self.sorted_within(lo, hi),
            self.unpainted().items().contains(k),
        ensures
            self.find(k) is Node,
        decreases self,
    {
        match self {
            Shape::Nil => {},
            Shape::Node { left, item, right } => {
                let m = Some(item.0.rank());
                left.lemma_sorted(lo, m);
                right.lemma_sorted(m, hi);
                left.unpainted().lemma_items_within(lo, m);
                right.unpainted().lemma_items_within(m, hi);
                if left.unpainted().items().contains(k) {
                    left.lemma_item_is_found(k, lo, m);
                } else if right.unpainted().items().contains(k) {
                    right.lemma_item_is_found(k, m, hi);
                } else {
                    assert(k == item.0);
                }
            },
        }
    }

    /// In a sorted tree, a child of the root is found by its key.
    pub proof fn lemma_kid_found(self, left: bool)
        requires
            self.sorted_within(None, None),
            self.kid(left) is Node,
        ensures
            self.find(self.kid(left)->item.0) == self.kid(left),
            self.kid(left).find(self.kid(left)->item.0) == self.kid(left),
            left ==> self.kid(left)->item.0.rank() < self->item.0.rank(),
            !left ==> self->item.0.rank() < self.kid(left)->item.0.rank(),
    {
        self.lemma_children(None, None);
    }

    /// The descent for a key that is not there ends at one node only.
    pub proof fn lemma_descent_end(self, k: T, a: T, b: T)
        requires
            self.passes(k, a),
            self.passes(k, b),
            (k.rank() < a.rank() && self.find(a).lhs() is Nil) || (a.rank() < k.rank() && self.find(
                a,
            ).rhs() is Nil),
            (k.rank() < b.rank() && self.find(b).lhs() is Nil) || (b.rank() < k.rank() && self.find(
                b,
            ).rhs() is Nil),
        ensures
            a.rank() == b.rank(),
        decreases self,
    {
        match self {
            Shape::Nil => {},
            Shape::Node { left, item, right } => {
                if a.rank() < item.0.rank() {
                    if b.rank() < item.0.rank() {
                        left.lemma_descent_end(k, a, b);
                    } else if item.0.rank() < b.rank() {
                    } else {
                        left.lemma_passes(k, a);
                    }
                } else if item.0.rank() < a.rank() {
                    if item.0.rank() < b.rank() {
                        right.lemma_descent_end(k, a, b);
                    } else if b.rank() < item.0.rank() {
                    } else {
                        right.lemma_passes(k, a);
                    }
                } else {
                    if b.rank() < item.0.rank() {
                        left.lemma_passes(k, b);
                    } else if item.0.rank() < b.rank() {
                        right.lemma_passes(k, b);
                    }
                }
            },
        }
    }

    /// The node above a child, as the links show it, is its place.
    pub proof fn lemma_place_of(self, k: T, above_k: T, side: bool, lo: Option<int>, hi: Option<int>)
        requires
            self.sorted_within(lo, hi),
            self.find(above_k) is Node,
            self.find(above_k).kid(side).root_key() matches Some(r) && r.rank() == k.rank(),
        ensures
            self.place_of(k) == Some((above_k, side)),
        decreases self,
    {
        match self {
            Shape::Nil => {},
            Shape::Node { left, item, right } => {
                let m = Some(item.0.rank());
                self.lemma_find(above_k, lo, hi);
                self.find(above_k).lemma_children(lo, hi);
                if above_k.rank() < item.0.rank() {
                    left.lemma_find(above_k, lo, m);
                    left.find(above_k).lemma_children(lo, m);
                    left.lemma_place_of(k, above_k, side, lo, m);
                    assert(left.root_key() matches Some(r) ==> r.rank() != k.rank()) by {
                        if left.root_key() matches Some(r) && r.rank() == k.rank() {
                            left.lemma_children(lo, m);
                            assert(left.place_of(k) is None);
                        }
                    }
                } else if item.0.rank() < above_k.rank() {
                    right.lemma_find(above_k, m, hi);
                    right.find(above_k).lemma_children(m, hi);
                    right.lemma_place_of(k, above_k, side, m, hi);
                    assert(right.root_key() matches Some(r) ==> r.rank() != k.rank()) by {
                        if right.root_key() matches Some(r) && r.rank() == k.rank() {
                            right.lemma_children(m, hi);
                            assert(right.place_of(k) is None);
                        }
                    }
                } else {
                    T::lemma_rank_injective(above_k, item.0);
                }
            },
        }
    }
}

// Changes at the node of a key.
impl<T: OrderedKey> Shape<(T, NodeColor)> {
    /// The tree with the node that holds `k` in the color `c`.
    pub open spec fn repainted(self, k: T, c: NodeColor) -> Self
        decreases self,
    {
        match self {
            Shape::Nil => Shape::Nil,
            Shape::Node { left, item, right } => if k.rank() < item.0.rank() {
                Shape::node(left.repainted(k, c), item, *right)
            } else if item.0.rank() < k.rank() {
                Shape::node(*left, item, right.repainted(k, c))
            } else {
                self.with_color(c)
            },
        }
    }

    /// The tree after a rotation at the node that holds `k`: to the left
    /// when `dir` is true, else to the right.
    pub open spec fn rerooted(self, k: T, dir: bool) -> Self
        decreases self,
    {
        match self {
            Shape::Nil => Shape::Nil,
            Shape::Node { left, item, right } => if k.rank() < item.0.rank() {
                Shape::node(left.rerooted(k, dir), item, *right)
            } else if item.0.rank() < k.rank() {
                Shape::node(*left, item, right.rerooted(k, dir))
            } else if dir {
                self.rotated_left()
            } else {
                self.rotated_right()
            },
        }
    }

    /// The tree with `k` attached as a red leaf where the order wants it.
    pub open spec fn sprouted(self, k: T) -> Self
        decreases self,
    {
        match self {
            Shape::Nil => Shape::node(Shape::Nil, (k, NodeColor::Red), Shape::Nil),
            Shape::Node { left, item, right } => if k.rank() < item.0.rank() {
                Shape::node(left.sprouted(k), item, *right)
            } else if item.0.rank() < k.rank() {
                Shape::node(*left, item, right.sprouted(k))
            } else {
                self
            },
        }
    }

    /// The tree with `t` in the place of the subtree at the node of `k`.
    pub open spec fn hung(self, k: T, t: Self) -> Self
        decreases self,
    {
        match self {
            Shape::Nil => Shape::Nil,
            Shape::Node { left, item, right } => if k.rank() < item.0.rank() {
                Shape::node(left.hung(k, t), item, *right)
            } else if item.0.rank() < k.rank() {
                Shape::node(*left, item, right.hung(k, t))
            } else {
                t
            },
        }
    }

    /// The tree with the key `to` at the node that holds `from`.
    pub open spec fn rekeyed(self, from: T, to: T) -> Self
        decreases self,
    {
        match self {
            Shape::Nil => Shape::Nil,
            Shape::Node { left, item, right } => if from.rank() < item.0.rank() {
                Shape::node(left.rekeyed(from, to), item, *right)
            } else if item.0.rank() < from.rank() {
                Shape::node(*left, item, right.rekeyed(from, to))
            } else {
                Shape::node(*left, (to, item.1), *right)
            },
        }
    }

    /// The tree after a rotation at its root: to the left when `dir` is
    /// true, else to the right.
    pub open spec fn turned(self, dir: bool) -> Self {
        if dir {
            self.rotated_left()
        } else {
            self.rotated_right()
        }
    }

    /// The child of the root that a rotation promotes.
    pub open spec fn riser(self, dir: bool) -> Self {
        if dir {
            self.rhs()
        } else {
            self.lhs()
        }
    }

    /// Repainting a key that lies outside the bounds of a sorted tree
    /// changes nothing.
    pub proof fn lemma_repaint_outside(self, k: T, c: NodeColor, lo: Option<int>, hi: Option<int>)
        requires
            self.sorted_within(lo, hi),
            !(above(lo, k.rank()) && below(hi, k.rank())),
        ensures
            self.repainted(k, c) == self,
        decreases self,
    {
        match self {
            Shape::Nil => {},
            Shape::Node { left, item, right } => {
                let m = Some(item.0.rank());
                left.lemma_repaint_outside(k, c, lo, m);
                right.lemma_repaint_outside(k, c, m, hi);
                if k.rank() < item.0.rank() {
                    if !(above(lo, k.rank())) {
                    } else {
                        assert(false);
                    }
                } else if item.0.rank() < k.rank() {
                } else {
                }
            },
        }
    }

    /// Repainting the node of `k` keeps the order, and changes what the
    /// links of a node show at the node of `k` only: there the color.
    pub proof fn lemma_repainted(self, k: T, c: NodeColor, lo: Option<int>, hi: Option<int>)
        requires
            self.sorted_within(lo, hi),
        ensures
            self.repainted(k, c).sorted_within(lo, hi),
            forall|k2: T| #[trigger]
                self.repainted(k, c).find(k2) == self.find(k2).repainted(k, c),
            forall|k2: T|
                self.find(k2) is Node ==> (#[trigger] self.repainted(k, c).find(k2)) is Node
                    && self.repainted(k, c).find(k2).glimpse() == (Glimpse {
                    item: if k2.rank() == k.rank() {
                        (self.find(k2)->item.0, c)
                    } else {
                        self.find(k2)->item
                    },
                    ..self.find(k2).glimpse()
                }),
        decreases self,
    {
        match self {
            Shape::Nil => {},
            Shape::Node { left, item, right } => {
                let m = Some(item.0.rank());
                left.lemma_repainted(k, c, lo, m);
                right.lemma_repainted(k, c, m, hi);
                assert forall|k2: T| #[trigger]
                    self.repainted(k, c).find(k2) == self.find(k2).repainted(k, c) by {
                    let after = self.repainted(k, c);
                    if k2.rank() < item.0.rank() {
                        assert(self.find(k2) == left.find(k2));
                        if k.rank() < item.0.rank() {
                            assert(after.find(k2) == left.repainted(k, c).find(k2));
                        } else {
                            assert(after.find(k2) == left.find(k2));
                            left.lemma_find(k2, lo, m);
                            left.find(k2).lemma_repaint_outside(k, c, lo, m);
                        }
                    } else if item.0.rank() < k2.rank() {
                        assert(self.find(k2) == right.find(k2));
                        if item.0.rank() < k.rank() {
                            assert(after.find(k2) == right.repainted(k, c).find(k2));
                        } else {
                            assert(after.find(k2) == right.find(k2));
                            right.lemma_find(k2, m, hi);
                            right.find(k2).lemma_repaint_outside(k, c, m, hi);
                        }
                    } else {
                        assert(self.find(k2) == self);
                        assert(after.find(k2) == after);
                    }
                }
                assert forall|k2: T| self.find(k2) is Node implies (#[trigger] self.repainted(
                    k,
                    c,
                ).find(k2)) is Node && self.repainted(k, c).find(k2).glimpse() == (Glimpse {
                    item: if k2.rank() == k.rank() {
                        (self.find(k2)->item.0, c)
                    } else {
                        self.find(k2)->item
                    },
                    ..self.find(k2).glimpse()
                }) by {
                    let s = self.find(k2);
                    self.lemma_find(k2, lo, hi);
                    assert(self.repainted(k, c).find(k2) == s.repainted(k, c));
                    s.lhs().lemma_root_key(k, c);
                    s.rhs().lemma_root_key(k, c);
                }
            },
        }
    }

    /// A rotation at the root keeps the order. The promoted child is the
    /// new root, the old root its child, and below them the same subtrees
    /// are found.
    pub proof fn lemma_turned(self, dir: bool, lo: Option<int>, hi: Option<int>)
        requires
            self.sorted_within(lo, hi),
            self.riser(dir) is Node,
        ensures
            self.turned(dir).sorted_within(lo, hi),
            self.turned(dir).root_key() == self.riser(dir).root_key(),
            self.turned(dir).find(self->item.0) == self.turned(dir).riser(!dir),
            self.turned(dir).riser(!dir).root_key() == self.root_key(),
            forall|k2: T|
                k2.rank() != self->item.0.rank() && k2.rank() != self.riser(dir)->item.0.rank()
                    ==> #[trigger] self.turned(dir).find(k2) == self.find(k2),
    {
        reveal_with_fuel(Shape::sorted_within, 3);
        reveal_with_fuel(Shape::find, 3);
        let x = self->item;
        let y = self.riser(dir)->item;
        if dir {
            let a = self.lhs();
            let b = self.rhs().lhs();
            let c = self.rhs().rhs();
            a.lemma_loosen(lo, Some(x.0.rank()), lo, Some(y.0.rank()));
            c.lemma_loosen(Some(y.0.rank()), hi, Some(y.0.rank()), hi);
            b.lemma_loosen(Some(x.0.rank()), Some(y.0.rank()), Some(x.0.rank()), Some(y.0.rank()));
            assert(self.turned(dir) == Shape::node(Shape::node(a, x, b), y, c));
        } else {
            let a = self.lhs().lhs();
            let b = self.lhs().rhs();
            let c = self.rhs();
            c.lemma_loosen(Some(x.0.rank()), hi, Some(y.0.rank()), hi);
            assert(self.turned(dir) == Shape::node(a, y, Shape::node(b, x, c)));
        }
    }

    /// A rotation at a key that lies outside the bounds of a sorted tree
    /// changes nothing.
    pub proof fn lemma_reroot_outside(self, k: T, dir: bool, lo: Option<int>, hi: Option<int>)
        requires
            self.sorted_within(lo, hi),
            !(above(lo, k.rank()) && below(hi, k.rank())),
        ensures
            self.rerooted(k, dir) == self,
        decreases self,
    {
        match self {
            Shape::Nil => {},
            Shape::Node { left, item, right } => {
                let m = Some(item.0.rank());
                left.lemma_reroot_outside(k, dir, lo, m);
                right.lemma_reroot_outside(k, dir, m, hi);
            },
        }
    }

    /// A rotation at the node of `k` keeps the order. Where the node was
    /// found, the promoted child is found with the rotated subtree, and the
    /// node itself below it; everywhere else the same subtrees are found,
    /// rotated at `k` where they hold it.
    pub proof fn lemma_rerooted(self, k: T, dir: bool, lo: Option<int>, hi: Option<int>)
        requires
            self.sorted_within(lo, hi),
            self.find(k).riser(dir) is Node,
        ensures
            self.rerooted(k, dir).sorted_within(lo, hi),
            self.rerooted(k, dir).root_key() == (if self.root_key() == Some(k) {
                self.find(k).riser(dir).root_key()
            } else {
                self.root_key()
            }),
            self.rerooted(k, dir).find(self.find(k).riser(dir)->item.0) == self.find(k).turned(dir),
            self.rerooted(k, dir).find(k) == self.find(k).turned(dir).riser(!dir),
            forall|k2: T|
                k2.rank() != k.rank() && k2.rank() != self.find(k).riser(dir)->item.0.rank()
                    ==> #[trigger] self.rerooted(k, dir).find(k2) == self.find(k2).rerooted(k, dir),
        decreases self,
    {
        match self {
            Shape::Nil => {},
            Shape::Node { left, item, right } => {
                let m = Some(item.0.rank());
                let after = self.rerooted(k, dir);
                let g = self.find(k);
                let y = g.riser(dir)->item.0;
                self.lemma_find(k, lo, hi);
                g.lemma_children(lo, hi);
                if k.rank() < item.0.rank() {
                    left.lemma_rerooted(k, dir, lo, m);
                    left.lemma_find(k, lo, m);
                    left.find(k).lemma_children(lo, m);
                    assert(y.rank() < item.0.rank());
                    assert(after == Shape::node(left.rerooted(k, dir), item, *right));
                    assert(after.find(y) == left.rerooted(k, dir).find(y));
                    assert(after.find(k) == left.rerooted(k, dir).find(k));
                    assert forall|k2: T| k2.rank() != k.rank() && k2.rank() != y.rank() implies (
                    #[trigger] after.find(k2)) == self.find(k2).rerooted(k, dir) by {
                        if k2.rank() < item.0.rank() {
                            assert(after.find(k2) == left.rerooted(k, dir).find(k2));
                            assert(self.find(k2) == left.find(k2));
                        } else if item.0.rank() < k2.rank() {
                            assert(after.find(k2) == right.find(k2));
                            assert(self.find(k2) == right.find(k2));
                            right.lemma_find(k2, m, hi);
                            right.find(k2).lemma_reroot_outside(k, dir, m, hi);
                        } else {
                            assert(after.find(k2) == after);
                            assert(self.find(k2) == self);
                        }
                    }
                    if self.root_key() == Some(k) {
                        assert(false);
                    }
                } else if item.0.rank() < k.rank() {
                    right.lemma_rerooted(k, dir, m, hi);
                    right.lemma_find(k, m, hi);
                    right.find(k).lemma_children(m, hi);
                    assert(item.0.rank() < y.rank());
                    assert(after == Shape::node(*left, item, right.rerooted(k, dir)));
                    assert(after.find(y) == right.rerooted(k, dir).find(y));
                    assert(after.find(k) == right.rerooted(k, dir).find(k));
                    assert forall|k2: T| k2.rank() != k.rank() && k2.rank() != y.rank() implies (
                    #[trigger] after.find(k2)) == self.find(k2).rerooted(k, dir) by {
                        if k2.rank() < item.0.rank() {
                            assert(after.find(k2) == left.find(k2));
                            assert(self.find(k2) == left.find(k2));
                            left.lemma_find(k2, lo, m);
                            left.find(k2).lemma_reroot_outside(k, dir, lo, m);
                        } else if item.0.rank() < k2.rank() {
                            assert(after.find(k2) == right.rerooted(k, dir).find(k2));
                            assert(self.find(k2) == right.find(k2));
                        } else {
                            assert(after.find(k2) == after);
                            assert(self.find(k2) == self);
                        }
                    }
                    if self.root_key() == Some(k) {
                        assert(false);
                    }
                } else {
                    T::lemma_rank_injective(k, item.0);
                    assert(g == self);
                    assert(after == self.turned(dir));
                    self.lemma_turned(dir, lo, hi);
                    assert(after.find(y) == after);
                    assert forall|k2: T| k2.rank() != k.rank() && k2.rank() != y.rank() implies (
                    #[trigger] after.find(k2)) == self.find(k2).rerooted(k, dir) by {
                        assert(after.find(k2) == self.find(k2));
                        if k2.rank() < item.0.rank() {
                            assert(self.find(k2) == left.find(k2));
                            left.lemma_find(k2, lo, m);
                            left.find(k2).lemma_reroot_outside(k, dir, lo, m);
                        } else {
                            assert(self.find(k2) == right.find(k2));
                            right.lemma_find(k2, m, hi);
                            right.find(k2).lemma_reroot_outside(k, dir, m, hi);
                        }
                    }
                }
            },
        }
    }

    /// What a rotation at `k` does to the key at the root.
    pub proof fn lemma_reroot_root(self, k: T, dir: bool)
        ensures
            self.rerooted(k, dir) is Nil <==> self is Nil,
            self.root_key() matches Some(r) && r.rank() != k.rank() ==> self.rerooted(
                k,
                dir,
            ).root_key() == self.root_key() && self.rerooted(k, dir)->item == self->item,
            self.root_key() matches Some(r) && r.rank() == k.rank() && self.riser(dir) is Node
                ==> self.rerooted(k, dir).root_key() == self.riser(dir).root_key(),
    {
    }

    /// Attaching a key that is not there keeps the order. The key is found
    /// as a red leaf. Every other node is found as before, with the new
    /// leaf as its child if the descent for the key ended there.
    pub proof fn lemma_sprouted(self, k: T, lo: Option<int>, hi: Option<int>)
        requires
            self.sorted_within(lo, hi),
            above(lo, k.rank()),
            below(hi, k.rank()),
            self.find(k) is Nil,
        ensures
            self.sprouted(k).sorted_within(lo, hi),
            self.sprouted(k).find(k) == Shape::node(Shape::Nil, (k, NodeColor::Red), Shape::Nil),
            self.sprouted(k).root_key() == (if self is Nil {
                Some(k)
            } else {
                self.root_key()
            }),
            forall|k2: T|
                self.find(k2) is Node ==> (#[trigger] self.sprouted(k).find(k2)) is Node
                    && self.sprouted(k).find(k2).glimpse() == (Glimpse {
                    item: self.find(k2)->item,
                    left: if self.passes(k, k2) && k.rank() < k2.rank() && self.find(
                        k2,
                    ).lhs() is Nil {
                        Some(k)
                    } else {
                        self.find(k2).glimpse().left
                    },
                    right: if self.passes(k, k2) && k2.rank() < k.rank() && self.find(
                        k2,
                    ).rhs() is Nil {
                        Some(k)
                    } else {
                        self.find(k2).glimpse().right
                    },
                }),
        decreases self,
    {
        match self {
            Shape::Nil => {
                reveal_with_fuel(Shape::sorted_within, 2);
            },
            Shape::Node { left, item, right } => {
                let m = Some(item.0.rank());
                let after = self.sprouted(k);
                if k.rank() < item.0.rank() {
                    left.lemma_sprouted(k, lo, m);
                    assert(after == Shape::node(left.sprouted(k), item, *right));
                    assert(after.find(k) == left.sprouted(k).find(k));
                    assert forall|k2: T| self.find(k2) is Node implies (#[trigger] after.find(
                        k2,
                    )) is Node && after.find(k2).glimpse() == (Glimpse {
                        item: self.find(k2)->item,
                        left: if self.passes(k, k2) && k.rank() < k2.rank() && self.find(
                            k2,
                        ).lhs() is Nil {
                            Some(k)
                        } else {
                            self.find(k2).glimpse().left
                        },
                        right: if self.passes(k, k2) && k2.rank() < k.rank() && self.find(
                            k2,
                        ).rhs() is Nil {
                            Some(k)
                        } else {
                            self.find(k2).glimpse().right
                        },
                    }) by {
                        if k2.rank() < item.0.rank() {
                            assert(after.find(k2) == left.sprouted(k).find(k2));
                            assert(self.find(k2) == left.find(k2));
                            assert(self.passes(k, k2) == left.passes(k, k2));
                        } else if item.0.rank() < k2.rank() {
                            assert(after.find(k2) == right.find(k2));
                            assert(self.find(k2) == right.find(k2));
                            assert(!self.passes(k, k2));
                        } else {
                            assert(after.find(k2) == after);
                            assert(self.find(k2) == self);
                            assert(self.passes(k, k2));
                        }
                    }
                } else {
                    assert(item.0.rank() < k.rank());
                    right.lemma_sprouted(k, m, hi);
                    assert(after == Shape::node(*left, item, right.sprouted(k)));
                    assert(after.find(k) == right.sprouted(k).find(k));
                    assert forall|k2: T| self.find(k2) is Node implies (#[trigger] after.find(
                        k2,
                    )) is Node && after.find(k2).glimpse() == (Glimpse {
                        item: self.find(k2)->item,
                        left: if self.passes(k, k2) && k.rank() < k2.rank() && self.find(
                            k2,
                        ).lhs() is Nil {
                            Some(k)
                        } else {
                            self.find(k2).glimpse().left
                        },
                        right: if self.passes(k, k2) && k2.rank() < k.rank() && self.find(
                            k2,
                        ).rhs() is Nil {
                            Some(k)
                        } else {
                            self.find(k2).glimpse().right
                        },
                    }) by {
                        if k2.rank() < item.0.rank() {
                            assert(after.find(k2) == left.find(k2));
                            assert(self.find(k2) == left.find(k2));
                            assert(!self.passes(k, k2));
                        } else if item.0.rank() < k2.rank() {
                            assert(after.find(k2) == right.sprouted(k).find(k2));
                            assert(self.find(k2) == right.find(k2));
                            assert(self.passes(k, k2) == right.passes(k, k2));
                        } else {
                            assert(after.find(k2) == after);
                            assert(self.find(k2) == self);
                            assert(self.passes(k, k2));
                        }
                    }
                }
            },
        }
    }

    /// Attaching a key that is there changes nothing.
    pub proof fn lemma_sprouted_present(self, k: T)
        requires
            self.find(k) is Node,
        ensures
            self.sprouted(k) == self,
        decreases self,
    {
        match self {
            Shape::Nil => {},
            Shape::Node { left, item, right } => {
                if k.rank() < item.0.rank() {
                    left.lemma_sprouted_present(k);
                } else if item.0.rank() < k.rank() {
                    right.lemma_sprouted_present(k);
                } else {
                }
            },
        }
    }

    /// Hanging a tree in the place of a node whose key it holds at its
    /// root: the tree is found there, and hanging or rebuilding there
    /// again forgets it.
    pub proof fn lemma_hung(self, k: T, t: Self, t2: Self)
        requires
            self.find(k) is Node,
            t.root_key() matches Some(r) && r.rank() == k.rank(),
        ensures
            self.hung(k, t).find(k) == t,
            self.hung(k, t).hung(k, t2) == self.hung(k, t2),
            self.hung(k, t).rebuilt(k, t2) == self.rebuilt(k, t2),
            self.hung(k, self.find(k)) == self,
            self.hung(k, t).root_key() == (if self.root_key()->0.rank() == k.rank() {
                t.root_key()
            } else {
                self.root_key()
            }),
        decreases self,
    {
        match self {
            Shape::Nil => {},
            Shape::Node { left, item, right } => {
                if k.rank() < item.0.rank() {
                    left.lemma_hung(k, t, t2);
                    assert(self.hung(k, t) == Shape::node(left.hung(k, t), item, *right));
                } else if item.0.rank() < k.rank() {
                    right.lemma_hung(k, t, t2);
                    assert(self.hung(k, t) == Shape::node(*left, item, right.hung(k, t)));
                } else {
                }
            },
        }
    }

    /// Repainting a node below the node of `k` is repainting it within the
    /// subtree there.
    pub proof fn lemma_repaint_hung(
        self,
        k: T,
        at: T,
        c: NodeColor,
        lo: Option<int>,
        hi: Option<int>,
    )
        requires
            self.sorted_within(lo, hi),
            self.find(k).find(at) is Node,
        ensures
            self.repainted(at, c) == self.hung(k, self.find(k).repainted(at, c)),
        decreases self,
    {
        match self {
            Shape::Nil => {},
            Shape::Node { left, item, right } => {
                let m = Some(item.0.rank());
                if k.rank() < item.0.rank() {
                    left.lemma_find(k, lo, m);
                    left.find(k).lemma_find(at, lo, m);
                    left.lemma_repaint_hung(k, at, c, lo, m);
                } else if item.0.rank() < k.rank() {
                    right.lemma_find(k, m, hi);
                    right.find(k).lemma_find(at, m, hi);
                    right.lemma_repaint_hung(k, at, c, m, hi);
                } else {
                }
            },
        }
    }

    /// A rotation at a node below the node of `k` is a rotation within the
    /// subtree there.
    pub proof fn lemma_reroot_hung(
        self,
        k: T,
        at: T,
        dir: bool,
        lo: Option<int>,
        hi: Option<int>,
    )
        requires
            self.sorted_within(lo, hi),
            self.find(k).find(at) is Node,
        ensures
            self.rerooted(at, dir) == self.hung(k, self.find(k).rerooted(at, dir)),
        decreases self,
    {
        match self {
            Shape::Nil => {},
            Shape::Node { left, item, right } => {
                let m = Some(item.0.rank());
                if k.rank() < item.0.rank() {
                    left.lemma_find(k, lo, m);
                    left.find(k).lemma_find(at, lo, m);
                    left.lemma_reroot_hung(k, at, dir, lo, m);
                } else if item.0.rank() < k.rank() {
                    right.lemma_find(k, m, hi);
                    right.find(k).lemma_find(at, m, hi);
                    right.lemma_reroot_hung(k, at, dir, m, hi);
                } else {
                }
            },
        }
    }

    /// What hanging a tree in does to the key at the root.
    pub proof fn lemma_hung_root(self, k: T, t: Self)
        ensures
            self is Nil ==> self.hung(k, t) is Nil,
            self.root_key() matches Some(r) && r.rank() != k.rank() ==> self.hung(k, t).root_key()
                == self.root_key() && self.hung(k, t)->item == self->item,
            self.root_key() matches Some(r) && r.rank() == k.rank() ==> self.hung(k, t) == t,
    {
    }

    /// Hanging a tree in at a key that lies outside the bounds of a sorted
    /// tree changes nothing.
    pub proof fn lemma_hung_outside(self, k: T, t: Self, lo: Option<int>, hi: Option<int>)
        requires
            self.sorted_within(lo, hi),
            !(above(lo, k.rank()) && below(hi, k.rank())),
        ensures
            self.hung(k, t) == self,
        decreases self,
    {
        match self {
            Shape::Nil => {},
            Shape::Node { left, item, right } => {
                let m = Some(item.0.rank());
                left.lemma_hung_outside(k, t, lo, m);
                right.lemma_hung_outside(k, t, m, hi);
            },
        }
    }

    /// A key that lies outside the bounds of a sorted tree is not found.
    pub proof fn lemma_find_outside(self, k: T, lo: Option<int>, hi: Option<int>)
        requires
            self.sorted_within(lo, hi),
            !(above(lo, k.rank()) && below(hi, k.rank())),
        ensures
            self.find(k) is Nil,
    {
        self.lemma_find(k, lo, hi);
    }

    /// Hanging in below a tree that was hung in at the same key.
    pub proof fn lemma_hung_in(self, k: T, t: Self, u: Self)
        ensures
            self.hung(k, t).hung(k, u) == self.hung(k, t.hung(k, u)),
        decreases self,
    {
        match self {
            Shape::Nil => {},
            Shape::Node { left, item, right } => {
                left.lemma_hung_in(k, t, u);
                right.lemma_hung_in(k, t, u);
                if k.rank() < item.0.rank() {
                    assert(self.hung(k, t) == Shape::node(left.hung(k, t), item, *right));
                } else if item.0.rank() < k.rank() {
                    assert(self.hung(k, t) == Shape::node(*left, item, right.hung(k, t)));
                } else {
                }
            },
        }
    }

    /// Repainting a node below the place where a tree was hung in is
    /// repainting it in that tree.
    pub proof fn lemma_hung_repaint(self, k: T, g: Self, at: T, c: NodeColor)
        requires
            self.find(k) is Node,
            g.root_key() matches Some(r) && r.rank() == k.rank(),
            self.hung(k, g).sorted_within(None, None),
            g.find(at) is Node,
        ensures
            self.hung(k, g).repainted(at, c) == self.hung(k, g.repainted(at, c)),
            self.hung(k, g.repainted(at, c)).sorted_within(None, None),
            g.repainted(at, c).root_key() == g.root_key(),
    {
        let mc = self.hung(k, g);
        self.lemma_hung(k, g, g.repainted(at, c));
        mc.lemma_repaint_hung(k, at, c, None, None);
        mc.lemma_repainted(at, c, None, None);
        g.lemma_root_key(at, c);
    }

    /// A rotation at a node below the place where a tree was hung in is
    /// a rotation in that tree.
    pub proof fn lemma_hung_reroot(self, k: T, g: Self, at: T, dir: bool)
        requires
            self.find(k) is Node,
            g.root_key() matches Some(r) && r.rank() == k.rank(),
            self.hung(k, g).sorted_within(None, None),
            g.find(at).riser(dir) is Node,
        ensures
            self.hung(k, g).rerooted(at, dir) == self.hung(k, g.rerooted(at, dir)),
            self.hung(k, g.rerooted(at, dir)).sorted_within(None, None),
            at.rank() != k.rank() ==> g.rerooted(at, dir).root_key() == g.root_key(),
    {
        let mc = self.hung(k, g);
        self.lemma_hung(k, g, g.rerooted(at, dir));
        mc.lemma_reroot_hung(k, at, dir, None, None);
        mc.lemma_find_below(k, at, None, None);
        mc.lemma_rerooted(at, dir, None, None);
        g.lemma_reroot_root(at, dir);
    }

    /// A key found in a tree that was hung in at the same key is found
    /// from the root.
    pub proof fn lemma_found_in_hung(self, k: T, t: Self)
        requires
            self.find(k) is Node,
        ensures
            self.hung(k, t).find(k) == t.find(k),
        decreases self,
    {
        match self {
            Shape::Nil => {},
            Shape::Node { left, item, right } => {
                if k.rank() < item.0.rank() {
                    left.lemma_found_in_hung(k, t);
                    assert(self.hung(k, t) == Shape::node(left.hung(k, t), item, *right));
                } else if item.0.rank() < k.rank() {
                    right.lemma_found_in_hung(k, t);
                    assert(self.hung(k, t) == Shape::node(*left, item, right.hung(k, t)));
                } else {
                }
            },
        }
    }

    /// Taking out a node with at most one child, whose child takes its
    /// place, keeps the order. Every other node is found as before, with
    /// the subtree below it changed in the same way.
    pub proof fn lemma_bypassed(self, k: T, lo: Option<int>, hi: Option<int>)
        requires
            self.sorted_within(lo, hi),
            self.find(k) is Node,
            self.find(k).lhs() is Nil || self.find(k).rhs() is Nil,
        ensures
            self.hung(k, self.find(k).lone_kid()).sorted_within(lo, hi),
            forall|k2: T|
                k2.rank() != k.rank() ==> #[trigger] self.hung(k, self.find(k).lone_kid()).find(k2)
                    == self.find(k2).hung(k, self.find(k).lone_kid()),
        decreases self,
    {
        match self {
            Shape::Nil => {},
            Shape::Node { left, item, right } => {
                let m = Some(item.0.rank());
                let t = self.find(k).lone_kid();
                let after = self.hung(k, t);
                if k.rank() < item.0.rank() {
                    left.lemma_bypassed(k, lo, m);
                    assert(after == Shape::node(left.hung(k, t), item, *right));
                    assert forall|k2: T| k2.rank() != k.rank() implies #[trigger] after.find(k2)
                        == self.find(k2).hung(k, t) by {
                        if k2.rank() < item.0.rank() {
                            assert(after.find(k2) == left.hung(k, t).find(k2));
                            assert(self.find(k2) == left.find(k2));
                        } else if item.0.rank() < k2.rank() {
                            assert(after.find(k2) == right.find(k2));
                            assert(self.find(k2) == right.find(k2));
                            right.lemma_find(k2, m, hi);
                            right.find(k2).lemma_hung_outside(k, t, m, hi);
                        } else {
                            assert(after.find(k2) == after);
                            assert(self.find(k2) == self);
                        }
                    }
                } else if item.0.rank() < k.rank() {
                    right.lemma_bypassed(k, m, hi);
                    assert(after == Shape::node(*left, item, right.hung(k, t)));
                    assert forall|k2: T| k2.rank() != k.rank() implies #[trigger] after.find(k2)
                        == self.find(k2).hung(k, t) by {
                        if k2.rank() < item.0.rank() {
                            assert(after.find(k2) == left.find(k2));
                            assert(self.find(k2) == left.find(k2));
                            left.lemma_find(k2, lo, m);
                            left.find(k2).lemma_hung_outside(k, t, lo, m);
                        } else if item.0.rank() < k2.rank() {
                            assert(after.find(k2) == right.hung(k, t).find(k2));
                            assert(self.find(k2) == right.find(k2));
                        } else {
                            assert(after.find(k2) == after);
                            assert(self.find(k2) == self);
                        }
                    }
                } else {
                    assert(self.find(k) == self);
                    assert(after == t);
                    self.lemma_children(lo, hi);
                    assert forall|k2: T| k2.rank() != k.rank() implies #[trigger] after.find(k2)
                        == self.find(k2).hung(k, t) by {
                        if k2.rank() < item.0.rank() {
                            assert(self.find(k2) == left.find(k2));
                            left.lemma_find(k2, lo, m);
                            left.find(k2).lemma_hung_outside(k, t, lo, m);
                            if *left is Nil {
                                right.lemma_find_outside(k2, m, hi);
                            }
                        } else {
                            assert(self.find(k2) == right.find(k2));
                            right.lemma_find(k2, m, hi);
                            right.find(k2).lemma_hung_outside(k, t, m, hi);
                            if *left is Node {
                                left.lemma_find_outside(k2, lo, m);
                            }
                        }
                    }
                }
            },
        }
    }

    /// Giving a node the next smaller key that is not in the tree keeps
    /// the order. The node is found by its new key, and every other node
    /// as before, with the key changed in the subtree below it.
    pub proof fn lemma_rekeyed(self, from: T, to: T, lo: Option<int>, hi: Option<int>)
        requires
            self.sorted_within(lo, hi),
            to.rank() < from.rank(),
            above(lo, to.rank()),
            forall|k2: T| #[trigger]
                self.unpainted().items().contains(k2) ==> k2.rank() < to.rank() || from.rank()
                    <= k2.rank(),
        ensures
            self.rekeyed(from, to).sorted_within(lo, hi),
            self.rekeyed(from, to).root_key() == (if self.root_key() matches Some(r) && r.rank()
                == from.rank() {
                Some(to)
            } else {
                self.root_key()
            }),
            self.find(from) is Node ==> self.rekeyed(from, to).find(to) == self.find(from).rekeyed(
                from,
                to,
            ),
            forall|k2: T|
                k2.rank() != from.rank() && k2.rank() != to.rank() ==> #[trigger] self.rekeyed(
                    from,
                    to,
                ).find(k2) == self.find(k2).rekeyed(from, to),
        decreases self,
    {
        match self {
            Shape::Nil => {},
            Shape::Node { left, item, right } => {
                let m = Some(item.0.rank());
                let after = self.rekeyed(from, to);
                assert(self.unpainted().items().contains(item.0));
                assert forall|k2: T| #[trigger]
                    left.unpainted().items().contains(k2) implies k2.rank() < to.rank()
                    || from.rank() <= k2.rank() by {
                    assert(self.unpainted().items().contains(k2));
                }
                assert forall|k2: T| #[trigger]
                    right.unpainted().items().contains(k2) implies k2.rank() < to.rank()
                    || from.rank() <= k2.rank() by {
                    assert(self.unpainted().items().contains(k2));
                }
                left.lemma_sorted(lo, m);
                right.lemma_sorted(m, hi);
                left.unpainted().lemma_items_within(lo, m);
                right.unpainted().lemma_items_within(m, hi);
                if from.rank() < item.0.rank() {
                    left.lemma_rekeyed(from, to, lo, m);
                    assert(after == Shape::node(left.rekeyed(from, to), item, *right));
                    assert forall|k2: T|
                        k2.rank() != from.rank() && k2.rank() != to.rank() implies #[trigger] after.find(
                        k2,
                    ) == self.find(k2).rekeyed(from, to) by {
                        if k2.rank() < item.0.rank() {
                            assert(after.find(k2) == left.rekeyed(from, to).find(k2));
                            assert(self.find(k2) == left.find(k2));
                        } else if item.0.rank() < k2.rank() {
                            assert(after.find(k2) == right.find(k2));
                            assert(self.find(k2) == right.find(k2));
                            right.lemma_find(k2, m, hi);
                            right.find(k2).lemma_rekey_outside(from, to, m, hi);
                        } else {
                            assert(after.find(k2) == after);
                            assert(self.find(k2) == self);
                        }
                    }
                    assert(after.find(to) == left.rekeyed(from, to).find(to));
                } else if item.0.rank() < from.rank() {
                    assert(item.0.rank() < to.rank());
                    right.lemma_rekeyed(from, to, m, hi);
                    assert(after == Shape::node(*left, item, right.rekeyed(from, to)));
                    assert forall|k2: T|
                        k2.rank() != from.rank() && k2.rank() != to.rank() implies #[trigger] after.find(
                        k2,
                    ) == self.find(k2).rekeyed(from, to) by {
                        if k2.rank() < item.0.rank() {
                            assert(after.find(k2) == left.find(k2));
                            assert(self.find(k2) == left.find(k2));
                            left.lemma_find(k2, lo, m);
                            left.find(k2).lemma_rekey_outside(from, to, lo, m);
                        } else if item.0.rank() < k2.rank() {
                            assert(after.find(k2) == right.rekeyed(from, to).find(k2));
                            assert(self.find(k2) == right.find(k2));
                        } else {
                            assert(after.find(k2) == after);
                            assert(self.find(k2) == self);
                        }
                    }
                    assert(after.find(to) == right.rekeyed(from, to).find(to));
                } else {
                    assert(after == Shape::node(*left, (to, item.1), *right));
                    let m2 = Some(to.rank());
                    assert forall|k2: T| #[trigger]
                        left.unpainted().items().contains(k2) implies above(lo, k2.rank())
                        && below(m2, k2.rank()) by {}
                    assert forall|k2: T| #[trigger]
                        right.unpainted().items().contains(k2) implies above(m2, k2.rank())
                        && below(hi, k2.rank()) by {}
                    left.unpainted().lemma_rebound(lo, m, lo, m2);
                    right.unpainted().lemma_rebound(m, hi, m2, hi);
                    left.lemma_sorted(lo, m2);
                    right.lemma_sorted(m2, hi);
                    assert forall|k2: T|
                        k2.rank() != from.rank() && k2.rank() != to.rank() implies #[trigger] after.find(
                        k2,
                    ) == self.find(k2).rekeyed(from, to) by {
                        if k2.rank() < item.0.rank() {
                            assert(self.find(k2) == left.find(k2));
                            left.lemma_find(k2, lo, m);
                            left.find(k2).lemma_rekey_outside(from, to, lo, m);
                            if left.find(k2) is Node {
                                left.lemma_found_is_item(k2);
                                assert(after.find(k2) == left.find(k2));
                            } else {
                                if k2.rank() < to.rank() {
                                    assert(after.find(k2) == left.find(k2));
                                } else {
                                    assert(after.find(k2) == right.find(k2));
                                    right.lemma_find_outside(k2, m, hi);
                                }
                            }
                        } else {
                            assert(self.find(k2) == right.find(k2));
                            assert(after.find(k2) == right.find(k2));
                            right.lemma_find(k2, m, hi);
                            right.find(k2).lemma_rekey_outside(from, to, m, hi);
                        }
                    }
                }
            },
        }
    }

    /// What changing the key `from` does to the root.
    pub proof fn lemma_rekey_root(self, from: T, to: T)
        ensures
            self.rekeyed(from, to) is Nil <==> self is Nil,
            self.root_key() matches Some(r) && r.rank() != from.rank() ==> self.rekeyed(
                from,
                to,
            )->item == self->item,
            self.root_key() matches Some(r) && r.rank() == from.rank() ==> self.rekeyed(
                from,
                to,
            )->item == (to, self->item.1) && self.rekeyed(from, to).lhs() == self.lhs()
                && self.rekeyed(from, to).rhs() == self.rhs(),
    {
    }

    /// Changing a key that lies outside the bounds of a sorted tree
    /// changes nothing.
    pub proof fn lemma_rekey_outside(self, from: T, to: T, lo: Option<int>, hi: Option<int>)
        requires
            self.sorted_within(lo, hi),
            !(above(lo, from.rank()) && below(hi, from.rank())),
        ensures
            self.rekeyed(from, to) == self,
        decreases self,
    {
        match self {
            Shape::Nil => {},
            Shape::Node { left, item, right } => {
                let m = Some(item.0.rank());
                left.lemma_rekey_outside(from, to, lo, m);
                right.lemma_rekey_outside(from, to, m, hi);
            },
        }
    }
}

// Insertion.
impl<T: OrderedKey> Shape<(T, NodeColor)> {
    /// The tree after the repair at its root that insertion asks for. Where
    /// a red child has a red child of its own: if the other child of the
    /// root is red too, both children turn black and the root red. Else the
    /// red child is rotated outward if its red child is the inner one, it
    /// turns black and the root red, and a rotation at the root lifts it
    /// into the place of the root.
    pub open spec fn mended(self) -> Self {
        let l = self.lhs();
        let r = self.rhs();
        if l.root_is_red() && (l.lhs().root_is_red() || l.rhs().root_is_red()) {
            if r.root_is_red() {
                Shape::node(
                    l.with_color(NodeColor::Black),
                    (self->item.0, NodeColor::Red),
                    r.with_color(NodeColor::Black),
                )
            } else {
                let l1 = if l.lhs().root_is_red() {
                    l
                } else {
                    l.rotated_left()
                };
                Shape::node(
                    l1.with_color(NodeColor::Black),
                    (self->item.0, NodeColor::Red),
                    r,
                ).rotated_right()
            }
        } else if r.root_is_red() && (r.lhs().root_is_red() || r.rhs().root_is_red()) {
            if l.root_is_red() {
                Shape::node(
                    l.with_color(NodeColor::Black),
                    (self->item.0, NodeColor::Red),
                    r.with_color(NodeColor::Black),
                )
            } else {
                let r1 = if r.rhs().root_is_red() {
                    r
                } else {
                    r.rotated_right()
                };
                Shape::node(
                    l,
                    (self->item.0, NodeColor::Red),
                    r1.with_color(NodeColor::Black),
                ).rotated_left()
            }
        } else {
            self
        }
    }

    /// The tree with `k` attached as a red leaf and every node on the way
    /// back up repaired; the tree itself if `k` is a key of it and no red
    /// node has a red child.
    pub open spec fn grown(self, k: T) -> Self
        decreases self,
    {
        match self {
            Shape::Nil => Shape::node(Shape::Nil, (k, NodeColor::Red), Shape::Nil),
            Shape::Node { left, item, right } => if k.rank() < item.0.rank() {
                Shape::node(left.grown(k), item, *right).mended()
            } else if item.0.rank() < k.rank() {
                Shape::node(*left, item, right.grown(k)).mended()
            } else {
                self
            },
        }
    }

    /// The red-black tree after `k` was added: a red leaf is attached where
    /// the order wants it, every node on the way back up is repaired, and
    /// the root turns black.
    pub open spec fn inserted(self, k: T) -> Self {
        self.grown(k).with_color(NodeColor::Black)
    }

    /// The tree with every node above the node of `k` repaired, from that
    /// node up.
    pub open spec fn climbed(self, k: T) -> Self
        decreases self,
    {
        match self {
            Shape::Nil => Shape::Nil,
            Shape::Node { left, item, right } => if k.rank() < item.0.rank() {
                Shape::node(left.climbed(k), item, *right).mended()
            } else if item.0.rank() < k.rank() {
                Shape::node(*left, item, right.climbed(k)).mended()
            } else {
                self
            },
        }
    }

    /// The tree with `t` in the place of the subtree at the node of `k`,
    /// and every node above that place repaired.
    pub open spec fn rebuilt(self, k: T, t: Self) -> Self
        decreases self,
    {
        match self {
            Shape::Nil => Shape::Nil,
            Shape::Node { left, item, right } => if k.rank() < item.0.rank() {
                Shape::node(left.rebuilt(k, t), item, *right).mended()
            } else if item.0.rank() < k.rank() {
                Shape::node(*left, item, right.rebuilt(k, t)).mended()
            } else {
                t
            },
        }
    }

    /// Adding a key is attaching it as a red leaf and repairing every node
    /// above it.
    pub proof fn lemma_grown(self, k: T)
        ensures
            self.grown(k) == self.sprouted(k).climbed(k),
        decreases self,
    {
        match self {
            Shape::Nil => {
                reveal_with_fuel(Shape::climbed, 2);
            },
            Shape::Node { left, item, right } => {
                left.lemma_grown(k);
                right.lemma_grown(k);
                if k.rank() < item.0.rank() {
                    assert(self.sprouted(k) == Shape::node(left.sprouted(k), item, *right));
                } else if item.0.rank() < k.rank() {
                    assert(self.sprouted(k) == Shape::node(*left, item, right.sprouted(k)));
                } else {
                }
            },
        }
    }

    /// Where no red node has a red child, there is nothing to repair.
    pub proof fn lemma_mended_valid(self)
        requires
            self.no_red_red(),
        ensures
            self.mended() == self,
    {
        reveal_with_fuel(Shape::no_red_red, 3);
    }

    /// Where no red node has a red child, there is nothing to repair on
    /// the way up from any node.
    pub proof fn lemma_climbed_valid(self, k: T)
        requires
            self.no_red_red(),
        ensures
            self.climbed(k) == self,
        decreases self,
    {
        match self {
            Shape::Nil => {},
            Shape::Node { left, item, right } => {
                left.lemma_climbed_valid(k);
                right.lemma_climbed_valid(k);
                self.lemma_mended_valid();
            },
        }
    }

    /// Where the tree with `t` hung in holds no red node with a red child,
    /// there is nothing to repair above `t`.
    pub proof fn lemma_rebuilt_valid(self, k: T, t: Self)
        requires
            self.hung(k, t).no_red_red(),
        ensures
            self.rebuilt(k, t) == self.hung(k, t),
        decreases self,
    {
        match self {
            Shape::Nil => {},
            Shape::Node { left, item, right } => {
                if k.rank() < item.0.rank() {
                    assert(self.hung(k, t) == Shape::node(left.hung(k, t), item, *right));
                    left.lemma_rebuilt_valid(k, t);
                    self.hung(k, t).lemma_mended_valid();
                } else if item.0.rank() < k.rank() {
                    assert(self.hung(k, t) == Shape::node(*left, item, right.hung(k, t)));
                    right.lemma_rebuilt_valid(k, t);
                    self.hung(k, t).lemma_mended_valid();
                } else {
                }
            },
        }
    }

    /// Repairing upward from the node of `below_k` is repairing upward from
    /// it within the subtree at the node of `k` above it, and from there
    /// up.
    pub proof fn lemma_climbed_split(self, k: T, below_k: T, lo: Option<int>, hi: Option<int>)
        requires
            self.sorted_within(lo, hi),
            self.find(k).find(below_k) is Node,
        ensures
            self.climbed(below_k) == self.rebuilt(k, self.find(k).climbed(below_k)),
        decreases self,
    {
        match self {
            Shape::Nil => {},
            Shape::Node { left, item, right } => {
                let m = Some(item.0.rank());
                if k.rank() < item.0.rank() {
                    left.lemma_find(k, lo, m);
                    left.find(k).lemma_find(below_k, lo, m);
                    left.lemma_climbed_split(k, below_k, lo, m);
                } else if item.0.rank() < k.rank() {
                    right.lemma_find(k, m, hi);
                    right.find(k).lemma_find(below_k, m, hi);
                    right.lemma_climbed_split(k, below_k, m, hi);
                } else {
                }
            },
        }
    }

    /// Below a root whose two children are red, the repair up from a red
    /// grandchild turns the children black and the root red.
    pub proof fn lemma_climb_recolor(
        self,
        below_k: T,
        side: bool,
        inner: bool,
        lo: Option<int>,
        hi: Option<int>,
    )
        requires
            self.sorted_within(lo, hi),
            self.red_pair(below_k, side, inner),
            self.kid(!side).root_is_red(),
        ensures
            self.climbed(below_k) == self.repainted(
                self.kid(side)->item.0,
                NodeColor::Black,
            ).repainted(self.kid(!side)->item.0, NodeColor::Black).repainted(
                self->item.0,
                NodeColor::Red,
            ),
    {
        reveal_with_fuel(Shape::sorted_within, 3);
        reveal_with_fuel(Shape::climbed, 3);
        reveal_with_fuel(Shape::repainted, 3);
        let p = self.kid(side);
        let u = self.kid(!side);
        let x = p.kid(inner);
        let once = self.repainted(p->item.0, NodeColor::Black);
        let twice = once.repainted(u->item.0, NodeColor::Black);
        if side {
            assert(once == Shape::node(p.with_color(NodeColor::Black), self->item, u));
            assert(twice == Shape::node(
                p.with_color(NodeColor::Black),
                self->item,
                u.with_color(NodeColor::Black),
            ));
        } else {
            assert(once == Shape::node(u, self->item, p.with_color(NodeColor::Black)));
            assert(twice == Shape::node(
                u.with_color(NodeColor::Black),
                self->item,
                p.with_color(NodeColor::Black),
            ));
        }
        assert(p.climbed(below_k) == p) by {
            if inner {
                assert(p.climbed(below_k) == Shape::node(x.climbed(below_k), p->item, p.rhs()).mended());
            } else {
                assert(p.climbed(below_k) == Shape::node(p.lhs(), p->item, x.climbed(below_k)).mended());
            }
        }
    }

    /// Below a root whose other child is not red, the repair up from a red
    /// grandchild below a red child is: a rotation at the child if the
    /// grandchild is the inner one, the upper of the two in black and the
    /// root in red, and a rotation at the root.
    pub proof fn lemma_climb_rotate(
        self,
        below_k: T,
        side: bool,
        inner: bool,
        lo: Option<int>,
        hi: Option<int>,
    )
        requires
            self.sorted_within(lo, hi),
            self.red_pair(below_k, side, inner),
            !self.kid(!side).root_is_red(),
        ensures
            self.climbed(below_k) == (if inner != side {
                self.rerooted(self.kid(side)->item.0, side)
            } else {
                self
            }).repainted(
                if inner != side {
                    below_k
                } else {
                    self.kid(side)->item.0
                },
                NodeColor::Black,
            ).repainted(self->item.0, NodeColor::Red).rerooted(self->item.0, !side),
    {
        reveal_with_fuel(Shape::sorted_within, 4);
        reveal_with_fuel(Shape::climbed, 3);
        reveal_with_fuel(Shape::repainted, 3);
        reveal_with_fuel(Shape::rerooted, 3);
        let p = self.kid(side);
        let u = self.kid(!side);
        let x = p.kid(inner);
        let kp = p->item.0;
        assert(p.climbed(below_k) == p) by {
            if inner {
                assert(p.climbed(below_k) == Shape::node(x.climbed(below_k), p->item, p.rhs()).mended());
            } else {
                assert(p.climbed(below_k) == Shape::node(p.lhs(), p->item, x.climbed(below_k)).mended());
            }
        }
        let straight = if inner != side {
            self.rerooted(kp, side)
        } else {
            self
        };
        let top = if inner != side {
            below_k
        } else {
            kp
        };
        let upper = if inner != side {
            p.turned(side)
        } else {
            p
        };
        if side {
            assert(straight == Shape::node(upper, self->item, u));
            assert(straight.repainted(top, NodeColor::Black) == Shape::node(
                upper.with_color(NodeColor::Black),
                self->item,
                u,
            ));
        } else {
            assert(straight == Shape::node(u, self->item, upper));
            assert(straight.repainted(top, NodeColor::Black) == Shape::node(
                u,
                self->item,
                upper.with_color(NodeColor::Black),
            ));
        }
    }

    /// The repair up from a red grandchild below two red children of the
    /// node of `k` moves the lack of order to that node: after the three
    /// repaintings, the repair goes on from there.
    pub proof fn lemma_recolor_step(self, k: T, below_k: T, side: bool, inner: bool)
        requires
            self.sorted_within(None, None),
            self.find(k).red_pair(below_k, side, inner),
            self.find(k).kid(!side).root_is_red(),
        ensures
            self.repainted(self.find(k).kid(side)->item.0, NodeColor::Black).repainted(
                self.find(k).kid(!side)->item.0,
                NodeColor::Black,
            ).repainted(k, NodeColor::Red).climbed(k) == self.climbed(below_k),
    {
        let g = self.find(k);
        let kp = g.kid(side)->item.0;
        let ku = g.kid(!side)->item.0;
        let black = NodeColor::Black;
        let red = NodeColor::Red;
        self.lemma_find(k, None, None);
        g.lemma_children(None, None);
        g.kid(side).lemma_children(None, None);
        g.lemma_kid_found(side);
        g.lemma_kid_found(!side);
        g.kid(side).lemma_kid_found(inner);
        assert(g.find(below_k) == g.kid(side).kid(inner)) by {
            g.lemma_find_below(kp, below_k, None, None);
            g.kid(side).lemma_root_key(kp, black);
        }
        let g1 = g.repainted(kp, black);
        let g2 = g1.repainted(ku, black);
        let g3 = g2.repainted(k, red);
        let m1 = self.repainted(kp, black);
        let m2 = m1.repainted(ku, black);
        let m3 = m2.repainted(k, red);
        g.lemma_climb_recolor(below_k, side, inner, None, None);
        assert(g.climbed(below_k) == g3);
        // The three repaintings happen within the subtree at `k`.
        self.lemma_repaint_hung(k, kp, black, None, None);
        self.lemma_repainted(kp, black, None, None);
        g.lemma_root_key(kp, black);
        self.lemma_hung(k, g1, g1);
        assert(m1 == self.hung(k, g1));
        assert(m1.find(k) == g1);
        g.lemma_repainted(kp, black, None, None);
        assert(g1.find(ku) == g.find(ku).repainted(kp, black));
        g.find(ku).lemma_root_key(kp, black);
        m1.lemma_repaint_hung(k, ku, black, None, None);
        m1.lemma_repainted(ku, black, None, None);
        g1.lemma_root_key(ku, black);
        self.lemma_hung(k, g1, g2);
        assert(m2 == self.hung(k, g2));
        self.lemma_hung(k, g2, g2);
        assert(m2.find(k) == g2);
        assert(g2.find(k) == g2);
        m2.lemma_repaint_hung(k, k, red, None, None);
        m2.lemma_repainted(k, red, None, None);
        g2.lemma_root_key(k, red);
        self.lemma_hung(k, g2, g3);
        assert(m3 == self.hung(k, g3));
        self.lemma_hung(k, g3, g3);
        assert(m3.find(k) == g3);
        assert(g3.find(k) == g3);
        // From the node of `k` up, both repairs do the same.
        m3.lemma_climbed_split(k, k, None, None);
        assert(g3.climbed(k) == g3);
        self.lemma_climbed_split(k, below_k, None, None);
    }

    /// The repair up from a red grandchild below one red child of the node
    /// of `k`: after the rotation that puts the two red nodes in line, if
    /// the grandchild is the inner one, the two repaintings and the
    /// rotation at the node of `k`, nothing is left to repair, if the tree
    /// then holds no red node with a red child.
    pub proof fn lemma_rotate_step(self, k: T, below_k: T, side: bool, inner: bool)
        requires
            self.sorted_within(None, None),
            self.find(k).red_pair(below_k, side, inner),
            !self.find(k).kid(!side).root_is_red(),
            (if inner != side {
                self.rerooted(self.find(k).kid(side)->item.0, side)
            } else {
                self
            }).repainted(
                if inner != side {
                    below_k
                } else {
                    self.find(k).kid(side)->item.0
                },
                NodeColor::Black,
            ).repainted(k, NodeColor::Red).rerooted(k, !side).no_red_red(),
        ensures
            (if inner != side {
                self.rerooted(self.find(k).kid(side)->item.0, side)
            } else {
                self
            }).repainted(
                if inner != side {
                    below_k
                } else {
                    self.find(k).kid(side)->item.0
                },
                NodeColor::Black,
            ).repainted(k, NodeColor::Red).rerooted(k, !side) == self.climbed(below_k),
    {
        let g = self.find(k);
        let p = g.kid(side);
        let kp = p->item.0;
        let black = NodeColor::Black;
        let red = NodeColor::Red;
        let bent = inner != side;
        let top = if bent {
            below_k
        } else {
            kp
        };
        self.lemma_find(k, None, None);
        g.lemma_children(None, None);
        g.lemma_kid_found(side);
        p.lemma_kid_found(inner);
        self.lemma_find_below(k, kp, None, None);
        let gs = if bent {
            g.rerooted(kp, side)
        } else {
            g
        };
        let ms = if bent {
            self.rerooted(kp, side)
        } else {
            self
        };
        // The rotation that puts the two red nodes in line.
        if bent {
            assert(self.find(kp) == p);
            assert(p.riser(side) == p.kid(inner));
            self.lemma_rerooted(kp, side, None, None);
            self.lemma_reroot_hung(k, kp, side, None, None);
            g.lemma_reroot_root(kp, side);
            g.lemma_rerooted(kp, side, None, None);
            assert(gs.find(below_k) == p.turned(side));
            p.lemma_turned(side, None, None);
        } else {
            self.lemma_hung(k, g, g);
        }
        assert(ms == self.hung(k, gs));
        assert(ms.sorted_within(None, None));
        self.lemma_hung(k, gs, gs);
        assert(ms.find(k) == gs);
        ms.lemma_find(k, None, None);
        assert(gs.find(top) is Node);
        // The upper red node turns black.
        let g1 = gs.repainted(top, black);
        let m1 = ms.repainted(top, black);
        ms.lemma_repaint_hung(k, top, black, None, None);
        ms.lemma_repainted(top, black, None, None);
        gs.lemma_root_key(top, black);
        self.lemma_hung(k, gs, g1);
        assert(m1 == self.hung(k, g1));
        self.lemma_hung(k, g1, g1);
        assert(m1.find(k) == g1);
        assert(g1.find(k) == g1);
        // The node of `k` turns red.
        let g2 = g1.repainted(k, red);
        let m2 = m1.repainted(k, red);
        m1.lemma_repaint_hung(k, k, red, None, None);
        m1.lemma_repainted(k, red, None, None);
        g1.lemma_root_key(k, red);
        self.lemma_hung(k, g1, g2);
        assert(m2 == self.hung(k, g2));
        self.lemma_hung(k, g2, g2);
        assert(m2.find(k) == g2);
        assert(g2.find(k) == g2);
        // The rotation at the node of `k`.
        let g3 = g2.rerooted(k, !side);
        let mf = m2.rerooted(k, !side);
        m2.lemma_reroot_hung(k, k, !side, None, None);
        self.lemma_hung(k, g2, g3);
        assert(mf == self.hung(k, g3));
        g.lemma_climb_rotate(below_k, side, inner, None, None);
        assert(g.climbed(below_k) == g3);
        self.lemma_climbed_split(k, below_k, None, None);
        self.lemma_rebuilt_valid(k, g3);
    }

    /// Adding a key that is there to a tree that keeps the color rules
    /// gives back the tree.
    pub proof fn lemma_inserted_present(self, k: T)
        requires
            self.no_red_red(),
            !self.root_is_red(),
            self.find(k) is Node,
        ensures
            self.inserted(k) == self,
    {
        self.lemma_sprouted_present(k);
        self.lemma_grown(k);
        self.lemma_climbed_valid(k);
    }
}

// Removal.
impl<T: OrderedKey> Shape<(T, NodeColor)> {
    /// The repair at the root when the paths through the child on the side
    /// `side` lack one black node and the other child, the sibling, is
    /// black. A sibling without a red child turns red; a red root then
    /// turns black, and below a black root the lack remains, which the
    /// second part of the result tells. With a red child of the sibling,
    /// whose left child is looked at first: if it is the outer one, it
    /// turns black, the sibling takes the color of the root, the root turns
    /// black and a rotation lifts the sibling; if it is the inner one, it
    /// takes the color of the root, the root turns black, and two rotations
    /// lift it into the place of the root.
    pub open spec fn eased_black(self, side: bool) -> (Self, bool) {
        let s = self.kid(!side);
        if s is Nil || s.root_is_red() {
            (self, true)
        } else if !s.lhs().root_is_red() && !s.rhs().root_is_red() {
            let t = self.with_kid(!side, s.with_color(NodeColor::Red));
            if self.root_is_red() {
                (t.with_color(NodeColor::Black), false)
            } else {
                (t, true)
            }
        } else {
            let outer = if side {
                !s.lhs().root_is_red()
            } else {
                s.lhs().root_is_red()
            };
            if outer {
                let s1 = s.with_kid(!side, s.kid(!side).with_color(NodeColor::Black)).with_color(
                    self->item.1,
                );
                (self.with_kid(!side, s1).with_color(NodeColor::Black).turned(side), false)
            } else {
                let s1 = s.with_kid(side, s.kid(side).with_color(self->item.1)).turned(!side);
                (self.with_kid(!side, s1).with_color(NodeColor::Black).turned(side), false)
            }
        }
    }

    /// The repair at the root when the paths through the child on the side
    /// `side` lack one black node. A red sibling turns black, the root red,
    /// and a rotation lifts the sibling; the old root, now below it, has a
    /// black sibling and is repaired as said there.
    pub open spec fn eased(self, side: bool) -> (Self, bool) {
        let s = self.kid(!side);
        if s.root_is_red() {
            let t = self.with_kid(!side, s.with_color(NodeColor::Black)).with_color(
                NodeColor::Red,
            ).turned(side);
            let inner = t.kid(side).eased_black(side);
            (t.with_kid(side, inner.0), inner.1)
        } else {
            self.eased_black(side)
        }
    }

    /// The repair on the way up from the node of `k`, whose child on the
    /// side `side` has paths that lack one black node: that node is
    /// repaired, and each node above it while the lack remains.
    pub open spec fn relieved(self, k: T, side: bool) -> (Self, bool)
        decreases self,
    {
        match self {
            Shape::Nil => (Shape::Nil, false),
            Shape::Node { left, item, right } => if k.rank() < item.0.rank() {
                let below = left.relieved(k, side);
                let t = Shape::node(below.0, item, *right);
                if below.1 {
                    t.eased(true)
                } else {
                    (t, false)
                }
            } else if item.0.rank() < k.rank() {
                let below = right.relieved(k, side);
                let t = Shape::node(*left, item, below.0);
                if below.1 {
                    t.eased(false)
                } else {
                    (t, false)
                }
            } else {
                self.eased(side)
            },
        }
    }

    /// The tree with `t` in the place of the subtree at the node of `k`,
    /// and each node above it repaired while the paths through the place
    /// lack one black node, as `short` tells for `t`.
    pub open spec fn carried(self, k: T, t: Self, short: bool) -> (Self, bool)
        decreases self,
    {
        match self {
            Shape::Nil => (Shape::Nil, false),
            Shape::Node { left, item, right } => if k.rank() < item.0.rank() {
                let below = left.carried(k, t, short);
                let u = Shape::node(below.0, item, *right);
                if below.1 {
                    u.eased(true)
                } else {
                    (u, false)
                }
            } else if item.0.rank() < k.rank() {
                let below = right.carried(k, t, short);
                let u = Shape::node(*left, item, below.0);
                if below.1 {
                    u.eased(false)
                } else {
                    (u, false)
                }
            } else {
                (t, short)
            },
        }
    }

    /// The tree without the node of `k`, which has at most one child. A
    /// child takes the place of the node and turns black. Where a red leaf
    /// or the root leaves, nothing else changes. Where a black leaf leaves,
    /// the paths through its place lack one black node, and the nodes above
    /// it are repaired.
    pub open spec fn without(self, k: T) -> Self {
        let g = self.find(k);
        if g.lone_kid() is Node {
            self.hung(k, g.lone_kid()).repainted(g.lone_kid()->item.0, NodeColor::Black)
        } else if g.root_is_red() {
            self.hung(k, Shape::Nil)
        } else {
            match self.place_of(k) {
                None => self.hung(k, Shape::Nil),
                Some(place) => self.hung(k, Shape::Nil).relieved(place.0, place.1).0,
            }
        }
    }

    /// The red-black tree after `k` was removed; the tree itself if `k` is
    /// not a key of it. A node with two children takes the next smaller
    /// key, whose node leaves the tree in its stead.
    pub open spec fn deleted(self, k: T) -> Self {
        let z = self.find(k);
        if z is Nil {
            self
        } else if z.lhs() is Node && z.rhs() is Node {
            match z.lhs().max_key() {
                Some(next) => self.without(next).rekeyed(k, next),
                None => self,
            }
        } else {
            self.without(k)
        }
    }

    /// The repair up from a node is the repair at the node, carried up.
    pub proof fn lemma_relieved_split(self, k: T, side: bool)
        ensures
            self.find(k) is Node ==> self.relieved(k, side) == self.carried(
                k,
                self.find(k).eased(side).0,
                self.find(k).eased(side).1,
            ),
        decreases self,
    {
        match self {
            Shape::Nil => {},
            Shape::Node { left, item, right } => {
                left.lemma_relieved_split(k, side);
                right.lemma_relieved_split(k, side);
            },
        }
    }

    /// Where nothing is lacking, carrying up is hanging in.
    pub proof fn lemma_carried_done(self, k: T, t: Self)
        ensures
            self.carried(k, t, false) == (self.hung(k, t), false),
        decreases self,
    {
        match self {
            Shape::Nil => {},
            Shape::Node { left, item, right } => {
                left.lemma_carried_done(k, t);
                right.lemma_carried_done(k, t);
            },
        }
    }

    /// Where the lack remains at the node of `k`, carrying it up is the
    /// repair up from the node above, with the repaired subtree hung in.
    pub proof fn lemma_carried_up(
        self,
        k: T,
        t: Self,
        above_k: T,
        side: bool,
        lo: Option<int>,
        hi: Option<int>,
    )
        requires
            self.sorted_within(lo, hi),
            self.find(above_k) is Node,
            self.find(above_k).kid(side).root_key() matches Some(r) && r.rank() == k.rank(),
            t.root_key() matches Some(r) && r.rank() == k.rank(),
        ensures
            self.carried(k, t, true) == self.hung(k, t).relieved(above_k, side),
        decreases self,
    {
        match self {
            Shape::Nil => {},
            Shape::Node { left, item, right } => {
                let m = Some(item.0.rank());
                self.lemma_find(above_k, lo, hi);
                self.find(above_k).lemma_children(lo, hi);
                if above_k.rank() < item.0.rank() {
                    left.lemma_find(above_k, lo, m);
                    left.find(above_k).lemma_children(lo, m);
                    assert(k.rank() < item.0.rank());
                    left.lemma_carried_up(k, t, above_k, side, lo, m);
                    assert(self.hung(k, t) == Shape::node(left.hung(k, t), item, *right));
                } else if item.0.rank() < above_k.rank() {
                    right.lemma_find(above_k, m, hi);
                    right.find(above_k).lemma_children(m, hi);
                    assert(item.0.rank() < k.rank());
                    right.lemma_carried_up(k, t, above_k, side, m, hi);
                    assert(self.hung(k, t) == Shape::node(*left, item, right.hung(k, t)));
                } else {
                    assert(self.find(above_k) == self);
                    if side {
                        assert(k.rank() < item.0.rank());
                        assert(left.carried(k, t, true) == (t, true));
                        assert(left.hung(k, t) == t);
                        assert(self.hung(k, t) == Shape::node(t, item, *right));
                    } else {
                        assert(item.0.rank() < k.rank());
                        assert(right.carried(k, t, true) == (t, true));
                        assert(right.hung(k, t) == t);
                        assert(self.hung(k, t) == Shape::node(*left, item, t));
                    }
                }
            },
        }
    }

    /// The repair below a black sibling without a red child, as
    /// repaintings.
    pub proof fn lemma_ease_recolor(self, side: bool, lo: Option<int>, hi: Option<int>)
        requires
            self.sorted_within(lo, hi),
            self.kid(!side) is Node,
            !self.kid(!side).root_is_red(),
            !self.kid(!side).lhs().root_is_red(),
            !self.kid(!side).rhs().root_is_red(),
        ensures
            self.eased(side) == (
                if self.root_is_red() {
                    self.repainted(self.kid(!side)->item.0, NodeColor::Red).repainted(
                        self->item.0,
                        NodeColor::Black,
                    )
                } else {
                    self.repainted(self.kid(!side)->item.0, NodeColor::Red)
                },
                !self.root_is_red(),
            ),
    {
        reveal_with_fuel(Shape::sorted_within, 3);
        reveal_with_fuel(Shape::repainted, 3);
    }

    /// The repair below a black sibling with a red outer child, as
    /// repaintings and a rotation.
    pub proof fn lemma_ease_far(self, side: bool, lo: Option<int>, hi: Option<int>)
        requires
            self.sorted_within(lo, hi),
            self.kid(!side) is Node,
            !self.kid(!side).root_is_red(),
            self.kid(!side).kid(!side).root_is_red(),
            side ==> !self.kid(!side).lhs().root_is_red(),
        ensures
            self.eased(side) == (
                self.repainted(self.kid(!side).kid(!side)->item.0, NodeColor::Black).repainted(
                    self.kid(!side)->item.0,
                    self->item.1,
                ).repainted(self->item.0, NodeColor::Black).rerooted(self->item.0, side),
                false,
            ),
    {
        reveal_with_fuel(Shape::sorted_within, 4);
        reveal_with_fuel(Shape::repainted, 4);
        reveal_with_fuel(Shape::rerooted, 2);
        let s = self.kid(!side);
        let f = s.kid(!side);
        let once = self.repainted(f->item.0, NodeColor::Black);
        let twice = once.repainted(s->item.0, self->item.1);
        let s1 = s.with_kid(!side, f.with_color(NodeColor::Black)).with_color(self->item.1);
        assert(once == self.with_kid(
            !side,
            s.with_kid(!side, f.with_color(NodeColor::Black)),
        ));
        assert(twice == self.with_kid(!side, s1));
    }

    /// The repair below a black sibling with a red inner child, as
    /// repaintings and rotations.
    pub proof fn lemma_ease_near(self, side: bool, lo: Option<int>, hi: Option<int>)
        requires
            self.sorted_within(lo, hi),
            self.kid(!side) is Node,
            !self.kid(!side).root_is_red(),
            self.kid(!side).kid(side).root_is_red(),
            !side ==> !self.kid(!side).lhs().root_is_red(),
        ensures
            self.eased(side) == (
                self.repainted(self.kid(!side).kid(side)->item.0, self->item.1).repainted(
                    self->item.0,
                    NodeColor::Black,
                ).rerooted(self.kid(!side)->item.0, !side).rerooted(self->item.0, side),
                false,
            ),
    {
        reveal_with_fuel(Shape::sorted_within, 4);
        reveal_with_fuel(Shape::repainted, 4);
        reveal_with_fuel(Shape::rerooted, 3);
        let s = self.kid(!side);
        let n = s.kid(side);
        let once = self.repainted(n->item.0, self->item.1);
        let twice = once.repainted(self->item.0, NodeColor::Black);
        let s0 = s.with_kid(side, n.with_color(self->item.1));
        assert(once == self.with_kid(!side, s0));
        assert(twice == self.with_kid(!side, s0).with_color(NodeColor::Black));
        let thrice = twice.rerooted(s->item.0, !side);
        assert(thrice == self.with_kid(!side, s0.turned(!side)).with_color(NodeColor::Black));
    }

    /// The first part of the repair below a red sibling, as repaintings
    /// and a rotation: the old root is then the child of the new root on
    /// the side of the lack, in red, with a black sibling.
    pub proof fn lemma_ease_red(self, side: bool, lo: Option<int>, hi: Option<int>)
        requires
            self.sorted_within(lo, hi),
            self is Node,
            self.kid(!side).root_is_red(),
            self.kid(!side).kid(side) is Node,
            !self.kid(!side).kid(side).root_is_red(),
        ensures
            ({
                let t = self.repainted(self.kid(!side)->item.0, NodeColor::Black).repainted(
                    self->item.0,
                    NodeColor::Red,
                ).rerooted(self->item.0, side);
                &&& t.kid(side).root_key() == self.root_key()
                &&& t.root_key() == self.kid(!side).root_key()
                &&& t.find(self->item.0) == t.kid(side)
                &&& t.kid(side).eased(side) == t.kid(side).eased_black(side)
                &&& !t.kid(side).eased(side).1
                &&& self.eased(side) == (t.hung(self->item.0, t.kid(side).eased(side).0), false)
                &&& t.sorted_within(lo, hi)
            }),
    {
        reveal_with_fuel(Shape::sorted_within, 4);
        reveal_with_fuel(Shape::repainted, 3);
        reveal_with_fuel(Shape::rerooted, 2);
        reveal_with_fuel(Shape::find, 3);
        reveal_with_fuel(Shape::hung, 3);
        let s = self.kid(!side);
        let once = self.repainted(s->item.0, NodeColor::Black);
        let twice = once.repainted(self->item.0, NodeColor::Red);
        assert(once == self.with_kid(!side, s.with_color(NodeColor::Black)));
        assert(twice == self.with_kid(!side, s.with_color(NodeColor::Black)).with_color(
            NodeColor::Red,
        ));
        let t = twice.rerooted(self->item.0, side);
        assert(t == twice.turned(side));
        twice.lemma_turned(side, lo, hi);
    }

    /// Below a black sibling without a red child and a red node, the
    /// repair is done by two repaintings.
    pub proof fn lemma_recolor_done(self, k: T, side: bool)
        requires
            self.sorted_within(None, None),
            self.find(k).root_is_red(),
            self.find(k).kid(!side) is Node,
            !self.find(k).kid(!side).root_is_red(),
            !self.find(k).kid(!side).lhs().root_is_red(),
            !self.find(k).kid(!side).rhs().root_is_red(),
        ensures
            self.relieved(k, side) == (
                self.repainted(self.find(k).kid(!side)->item.0, NodeColor::Red).repainted(
                    k,
                    NodeColor::Black,
                ),
                false,
            ),
    {
        let g = self.find(k);
        let ks = g.kid(!side)->item.0;
        self.lemma_find(k, None, None);
        g.lemma_kid_found(!side);
        g.lemma_ease_recolor(side, None, None);
        self.lemma_hung(k, g, g);
        self.lemma_hung_repaint(k, g, ks, NodeColor::Red);
        let g1 = g.repainted(ks, NodeColor::Red);
        assert(g1.find(k) == g1);
        self.lemma_hung_repaint(k, g1, k, NodeColor::Black);
        self.lemma_relieved_split(k, side);
        self.lemma_carried_done(k, g1.repainted(k, NodeColor::Black));
    }

    /// Below a black sibling without a red child and a black node that is
    /// not the root, the repair goes on from the node above after one
    /// repainting.
    pub proof fn lemma_recolor_up(self, k: T, side: bool, above_k: T, above_side: bool)
        requires
            self.sorted_within(None, None),
            self.find(k) is Node,
            !self.find(k).root_is_red(),
            self.find(k).kid(!side) is Node,
            !self.find(k).kid(!side).root_is_red(),
            !self.find(k).kid(!side).lhs().root_is_red(),
            !self.find(k).kid(!side).rhs().root_is_red(),
            self.find(above_k) is Node,
            self.find(above_k).kid(above_side).root_key() matches Some(r) && r.rank() == k.rank(),
        ensures
            self.repainted(self.find(k).kid(!side)->item.0, NodeColor::Red).relieved(
                above_k,
                above_side,
            ) == self.relieved(k, side),
    {
        let g = self.find(k);
        let ks = g.kid(!side)->item.0;
        self.lemma_find(k, None, None);
        g.lemma_kid_found(!side);
        g.lemma_ease_recolor(side, None, None);
        self.lemma_hung(k, g, g);
        self.lemma_hung_repaint(k, g, ks, NodeColor::Red);
        let g1 = g.repainted(ks, NodeColor::Red);
        self.lemma_relieved_split(k, side);
        self.lemma_carried_up(k, g1, above_k, above_side, None, None);
    }

    /// Below a black sibling without a red child and a black root, one
    /// repainting is all: every path then lacks the same.
    pub proof fn lemma_recolor_root(self, k: T, side: bool)
        requires
            self.sorted_within(None, None),
            self.root_key() == Some(k),
            !self.root_is_red(),
            self.kid(!side) is Node,
            !self.kid(!side).root_is_red(),
            !self.kid(!side).lhs().root_is_red(),
            !self.kid(!side).rhs().root_is_red(),
        ensures
            self.relieved(k, side).0 == self.repainted(self.kid(!side)->item.0, NodeColor::Red),
    {
        self.lemma_ease_recolor(side, None, None);
    }

    /// Below a black sibling with a red outer child, the repair is done by
    /// three repaintings and a rotation.
    pub proof fn lemma_far_done(self, k: T, side: bool)
        requires
            self.sorted_within(None, None),
            self.find(k) is Node,
            self.find(k).kid(!side) is Node,
            !self.find(k).kid(!side).root_is_red(),
            self.find(k).kid(!side).kid(!side).root_is_red(),
            side ==> !self.find(k).kid(!side).lhs().root_is_red(),
        ensures
            self.relieved(k, side) == (
                self.repainted(
                    self.find(k).kid(!side).kid(!side)->item.0,
                    NodeColor::Black,
                ).repainted(self.find(k).kid(!side)->item.0, self.find(k)->item.1).repainted(
                    k,
                    NodeColor::Black,
                ).rerooted(k, side),
                false,
            ),
    {
        let g = self.find(k);
        let sib = g.kid(!side);
        let ks = sib->item.0;
        let kf = sib.kid(!side)->item.0;
        let cp = g->item.1;
        self.lemma_find(k, None, None);
        g.lemma_kid_found(!side);
        g.lemma_children(None, None);
        sib.lemma_kid_found(!side);
        g.lemma_find_below(ks, kf, None, None);
        g.lemma_ease_far(side, None, None);
        self.lemma_hung(k, g, g);
        self.lemma_hung_repaint(k, g, kf, NodeColor::Black);
        let g1 = g.repainted(kf, NodeColor::Black);
        g.lemma_repainted(kf, NodeColor::Black, None, None);
        assert(g1.find(ks) is Node);
        self.lemma_hung_repaint(k, g1, ks, cp);
        let g2 = g1.repainted(ks, cp);
        assert(g2.find(k) == g2);
        self.lemma_hung_repaint(k, g2, k, NodeColor::Black);
        let g3 = g2.repainted(k, NodeColor::Black);
        g1.lemma_repainted(ks, cp, None, None);
        g2.lemma_repainted(k, NodeColor::Black, None, None);
        assert(g3.find(k) == g3);
        assert(g3.riser(side) is Node) by {
            assert(g3.find(ks) is Node);
            reveal_with_fuel(Shape::repainted, 3);
        }
        self.lemma_hung_reroot(k, g3, k, side);
        self.lemma_relieved_split(k, side);
        self.lemma_carried_done(k, g3.rerooted(k, side));
    }

    /// Below a black sibling with a red inner child, the repair is done by
    /// two repaintings and two rotations.
    pub proof fn lemma_near_done(self, k: T, side: bool)
        requires
            self.sorted_within(None, None),
            self.find(k) is Node,
            self.find(k).kid(!side) is Node,
            !self.find(k).kid(!side).root_is_red(),
            self.find(k).kid(!side).kid(side).root_is_red(),
            !side ==> !self.find(k).kid(!side).lhs().root_is_red(),
        ensures
            self.relieved(k, side) == (
                self.repainted(
                    self.find(k).kid(!side).kid(side)->item.0,
                    self.find(k)->item.1,
                ).repainted(k, NodeColor::Black).rerooted(
                    self.find(k).kid(!side)->item.0,
                    !side,
                ).rerooted(k, side),
                false,
            ),
    {
        let g = self.find(k);
        let sib = g.kid(!side);
        let ks = sib->item.0;
        let kn = sib.kid(side)->item.0;
        let cp = g->item.1;
        self.lemma_find(k, None, None);
        g.lemma_kid_found(!side);
        g.lemma_children(None, None);
        sib.lemma_kid_found(side);
        g.lemma_find_below(ks, kn, None, None);
        g.lemma_ease_near(side, None, None);
        self.lemma_hung(k, g, g);
        self.lemma_hung_repaint(k, g, kn, cp);
        let g1 = g.repainted(kn, cp);
        g.lemma_repainted(kn, cp, None, None);
        assert(g1.find(k) == g1);
        self.lemma_hung_repaint(k, g1, k, NodeColor::Black);
        let g2 = g1.repainted(k, NodeColor::Black);
        g1.lemma_repainted(k, NodeColor::Black, None, None);
        assert(g2.find(ks).riser(!side) is Node) by {
            reveal_with_fuel(Shape::repainted, 4);
            reveal_with_fuel(Shape::find, 3);
            reveal_with_fuel(Shape::sorted_within, 3);
        }
        self.lemma_hung_reroot(k, g2, ks, !side);
        let g3 = g2.rerooted(ks, !side);
        assert(g3.find(k) == g3);
        assert(g3.riser(side) is Node) by {
            reveal_with_fuel(Shape::repainted, 4);
            reveal_with_fuel(Shape::rerooted, 3);
            reveal_with_fuel(Shape::sorted_within, 3);
        }
        self.lemma_hung_reroot(k, g3, k, side);
        self.lemma_relieved_split(k, side);
        self.lemma_carried_done(k, g3.rerooted(k, side));
    }

    /// Below a red sibling, after two repaintings and a rotation, the
    /// repair goes on from the same node, which then has a black sibling.
    pub proof fn lemma_red_step(self, k: T, side: bool)
        requires
            self.sorted_within(None, None),
            self.find(k) is Node,
            self.find(k).kid(!side).root_is_red(),
            self.find(k).kid(!side).kid(side) is Node,
            !self.find(k).kid(!side).kid(side).root_is_red(),
        ensures
            self.repainted(self.find(k).kid(!side)->item.0, NodeColor::Black).repainted(
                k,
                NodeColor::Red,
            ).rerooted(k, side).relieved(k, side) == self.relieved(k, side),
    {
        let g = self.find(k);
        let ks = g.kid(!side)->item.0;
        self.lemma_find(k, None, None);
        g.lemma_kid_found(!side);
        g.lemma_ease_red(side, None, None);
        self.lemma_hung(k, g, g);
        self.lemma_hung_repaint(k, g, ks, NodeColor::Black);
        let g1 = g.repainted(ks, NodeColor::Black);
        assert(g1.find(k) == g1);
        self.lemma_hung_repaint(k, g1, k, NodeColor::Red);
        let g2 = g1.repainted(k, NodeColor::Red);
        assert(g2.find(k) == g2);
        assert(g2.riser(side) is Node) by {
            reveal_with_fuel(Shape::repainted, 3);
            reveal_with_fuel(Shape::sorted_within, 3);
        }
        self.lemma_hung_reroot(k, g2, k, side);
        let t = g2.rerooted(k, side);
        let mr = self.hung(k, t);
        let inner = t.kid(side).eased(side);
        // Before: the repair at the node, carried up without a lack.
        self.lemma_relieved_split(k, side);
        self.lemma_carried_done(k, t.hung(k, inner.0));
        // After: the repair at the node, which now hangs one level lower.
        assert(mr.find(k) == t.find(k)) by {
            self.lemma_found_in_hung(k, t);
        }
        mr.lemma_relieved_split(k, side);
        mr.lemma_carried_done(k, inner.0);
        self.lemma_hung_in(k, t, inner.0);
    }
}

// Adding a key and removing it again.
impl<T: OrderedKey> Shape<(T, NodeColor)> {
    /// The descent for `k`, which is not a key of the tree, ends below a
    /// black node.
    pub open spec fn ends_below_black(self, k: T) -> bool
        decreases self,
    {
        match self {
            Shape::Nil => false,
            Shape::Node { left, item, right } => if k.rank() < item.0.rank() {
                if *left is Nil {
                    item.1 == NodeColor::Black
                } else {
                    left.ends_below_black(k)
                }
            } else if item.0.rank() < k.rank() {
                if *right is Nil {
                    item.1 == NodeColor::Black
                } else {
                    right.ends_below_black(k)
                }
            } else {
                false
            },
        }
    }

    /// A red leaf attached below a black node needs no repair: no red node
    /// has a red child, and taking the leaf away gives back the tree.
    pub proof fn lemma_sprouted_below_black(self, k: T)
        requires
            self.no_red_red(),
            self.ends_below_black(k),
        ensures
            self.sprouted(k).no_red_red(),
            self.sprouted(k).root_is_red() == self.root_is_red(),
            self.sprouted(k).find(k) == Shape::node(Shape::Nil, (k, NodeColor::Red), Shape::Nil),
            self.sprouted(k).hung(k, Shape::Nil) == self,
        decreases self,
    {
        let leaf = Shape::node(Shape::Nil, (k, NodeColor::Red), Shape::Nil);
        assert(leaf.no_red_red()) by {
            reveal_with_fuel(Shape::no_red_red, 2);
        }
        assert(leaf.find(k) == leaf && leaf.hung(k, Shape::Nil) is Nil);
        match self {
            Shape::Nil => {},
            Shape::Node { left, item, right } => {
                if k.rank() < item.0.rank() {
                    if *left is Node {
                        left.lemma_sprouted_below_black(k);
                    } else {
                        assert(left.sprouted(k) == leaf);
                    }
                } else if item.0.rank() < k.rank() {
                    if *right is Node {
                        right.lemma_sprouted_below_black(k);
                    } else {
                        assert(right.sprouted(k) == leaf);
                    }
                }
            },
        }
    }

    /// Adding a key to an empty tree, or where it comes to hang below a
    /// black node, and removing it again gives back the tree itself.
    pub proof fn lemma_round_trip(self, k: T)
        requires
            self.no_red_red(),
            !self.root_is_red(),
            self is Nil || self.ends_below_black(k),
        ensures
            self.inserted(k).deleted(k) == self,
    {
        self.lemma_grown(k);
        if self is Node {
            self.lemma_sprouted_below_black(k);
            self.sprouted(k).lemma_climbed_valid(k);
            assert(self.inserted(k) == self.sprouted(k));
        }
    }
}

} // verus!
