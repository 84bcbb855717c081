//! The mathematical model of a binary tree and what the queries compute on it.

use vstd::prelude::*;
use crate::key::OrderedKey;

verus! {

/// A binary tree as a value: either empty, or an item with a left and a
/// right subtree.
pub ghost enum Shape<A> {
    Nil,
    Node { left: Box<Shape<A>>, item: A, right: Box<Shape<A>> },
}

/// `x` lies strictly above the lower bound `lo`; `None` is no bound.
pub open spec fn above(lo: Option<int>, x: int) -> bool {
    lo matches Some(l) ==> l < x
}

/// `x` lies strictly below the upper bound `hi`; `None` is no bound.
pub open spec fn below(hi: Option<int>, x: int) -> bool {
    hi matches Some(h) ==> x < h
}

impl<A> Shape<A> {
    /// Number of nodes on the longest path from the root down; 0 when empty.
    pub open spec fn height(self) -> nat
        decreases self,
    {
        match self {
            Shape::Nil => 0,
            Shape::Node { left, item, right } => {
                let l = left.height();
                let r = right.height();
                1 + if l >= r {
                    l
                } else {
                    r
                }
            },
        }
    }

    /// Number of nodes.
    pub open spec fn size(self) -> nat
        decreases self,
    {
        match self {
            Shape::Nil => 0,
            Shape::Node { left, item, right } => left.size() + right.size() + 1,
        }
    }

    /// Number of nodes without children.
    pub open spec fn leaves(self) -> nat
        decreases self,
    {
        match self {
            Shape::Nil => 0,
            Shape::Node { left, item, right } => if *left is Nil && *right is Nil {
                1
            } else {
                left.leaves() + right.leaves()
            },
        }
    }

    /// Left subtree, item, right subtree.
    pub open spec fn inorder(self) -> Seq<A>
        decreases self,
    {
        match self {
            Shape::Nil => Seq::empty(),
            Shape::Node { left, item, right } => left.inorder().push(item) + right.inorder(),
        }
    }

    /// Item, left subtree, right subtree.
    pub open spec fn preorder(self) -> Seq<A>
        decreases self,
    {
        match self {
            Shape::Nil => Seq::empty(),
            Shape::Node { left, item, right } => seq![item] + left.preorder() + right.preorder(),
        }
    }

    /// Left subtree, right subtree, item.
    pub open spec fn postorder(self) -> Seq<A>
        decreases self,
    {
        match self {
            Shape::Nil => Seq::empty(),
            Shape::Node { left, item, right } => (left.postorder() + right.postorder()).push(item),
        }
    }

    /// The items held, as a set.
    pub open spec fn items(self) -> Set<A>
        decreases self,
    {
        match self {
            Shape::Nil => Set::empty(),
            Shape::Node { left, item, right } => left.items().union(right.items()).insert(item),
        }
    }

    /// The item at the end of the left spine.
    pub open spec fn leftmost(self) -> Option<A>
        decreases self,
    {
        match self {
            Shape::Nil => None,
            Shape::Node { left, item, right } => if *left is Nil {
                Some(item)
            } else {
                left.leftmost()
            },
        }
    }

    /// The item at the end of the right spine.
    pub open spec fn rightmost(self) -> Option<A>
        decreases self,
    {
        match self {
            Shape::Nil => None,
            Shape::Node { left, item, right } => if *right is Nil {
                Some(item)
            } else {
                right.rightmost()
            },
        }
    }

    /// The left subtree; empty for the empty tree.
    pub open spec fn lhs(self) -> Shape<A> {
        match self {
            Shape::Nil => Shape::Nil,
            Shape::Node { left, item, right } => *left,
        }
    }

    /// The right subtree; empty for the empty tree.
    pub open spec fn rhs(self) -> Shape<A> {
        match self {
            Shape::Nil => Shape::Nil,
            Shape::Node { left, item, right } => *right,
        }
    }

    /// The tree with `item` at the root above `left` and `right`.
    pub open spec fn node(left: Shape<A>, item: A, right: Shape<A>) -> Shape<A> {
        Shape::Node { left: Box::new(left), item: item, right: Box::new(right) }
    }

    /// The tree after a rotation to the right: the left child of the root
    /// becomes the root, and the old root its right child.
    pub open spec fn rotated_right(self) -> Shape<A> {
        match self {
            Shape::Node { left, item, right } => match *left {
                Shape::Node { left: a, item: y, right: b } => Self::node(
                    *a,
                    y,
                    Self::node(*b, item, *right),
                ),
                Shape::Nil => self,
            },
            Shape::Nil => self,
        }
    }

    /// The tree after a rotation to the left: the right child of the root
    /// becomes the root, and the old root its left child.
    pub open spec fn rotated_left(self) -> Shape<A> {
        match self {
            Shape::Node { left, item, right } => match *right {
                Shape::Node { left: b, item: y, right: c } => Self::node(
                    Self::node(*left, item, *b),
                    y,
                    *c,
                ),
                Shape::Nil => self,
            },
            Shape::Nil => self,
        }
    }

    /// At every node the heights of the two subtrees differ by at most one.
    pub open spec fn height_balanced(self) -> bool
        decreases self,
    {
        match self {
            Shape::Nil => true,
            Shape::Node { left, item, right } => {
                &&& left.height_balanced()
                &&& right.height_balanced()
                &&& left.height() <= right.height() + 1
                &&& right.height() <= left.height() + 1
            },
        }
    }

    /// Height, size, items and balance of a tree built from a root and two
    /// subtrees.
    pub proof fn lemma_built(left: Shape<A>, item: A, right: Shape<A>)
        ensures
            ({
                let t = Self::node(left, item, right);
                &&& t.height() == 1 + (if left.height() >= right.height() {
                    left.height()
                } else {
                    right.height()
                })
                &&& t.size() == left.size() + right.size() + 1
                &&& t.items() == left.items().union(right.items()).insert(item)
                &&& t.height_balanced() == (left.height_balanced() && right.height_balanced()
                    && left.height() <= right.height() + 1 && right.height() <= left.height() + 1)
            }),
    {
    }

    /// A rotation keeps the items.
    pub proof fn lemma_rotation_items(self)
        ensures
            self.rotated_right().items() == self.items(),
            self.rotated_left().items() == self.items(),
    {
        reveal_with_fuel(Shape::items, 3);
        assert(self.rotated_right().items() =~= self.items());
        assert(self.rotated_left().items() =~= self.items());
    }

    /// Each traversal visits every node once: it is as long as the tree is
    /// large, and holds exactly the items of the tree.
    pub proof fn lemma_traversals(self)
        ensures
            self.inorder().len() == self.size(),
            self.preorder().len() == self.size(),
            self.postorder().len() == self.size(),
            forall|x: A| #[trigger] self.inorder().contains(x) <==> self.items().contains(x),
            forall|x: A| #[trigger] self.preorder().contains(x) <==> self.items().contains(x),
            forall|x: A| #[trigger] self.postorder().contains(x) <==> self.items().contains(x),
        decreases self,
    {
        match self {
            Shape::Nil => {},
            Shape::Node { left, item, right } => {
                left.lemma_traversals();
                right.lemma_traversals();
                let li = left.inorder();
                let ri = right.inorder();
                let lp = left.preorder();
                let rp = right.preorder();
                let lq = left.postorder();
                let rq = right.postorder();
                assert forall|x: A| #[trigger]
                    self.inorder().contains(x) <==> self.items().contains(x) by {
                    let s = li.push(item) + ri;
                    if s.contains(x) {
                        let i = choose|i: int| 0 <= i < s.len() && s[i] == x;
                        if i < li.len() {
                            assert(li[i] == x);
                            assert(li.contains(x));
                        } else if i > li.len() {
                            assert(ri[i - li.len() - 1] == x);
                            assert(ri.contains(x));
                        }
                    }
                    if self.items().contains(x) {
                        if left.items().contains(x) {
                            assert(li.contains(x));
                            let i = choose|i: int| 0 <= i < li.len() && li[i] == x;
                            assert(s[i] == x);
                        } else if right.items().contains(x) {
                            assert(ri.contains(x));
                            let i = choose|i: int| 0 <= i < ri.len() && ri[i] == x;
                            assert(s[li.len() + 1 + i] == x);
                        } else {
                            assert(s[li.len() as int] == x);
                        }
                    }
                }
                assert forall|x: A| #[trigger]
                    self.preorder().contains(x) <==> self.items().contains(x) by {
                    let s = seq![item] + lp + rp;
                    if s.contains(x) {
                        let i = choose|i: int| 0 <= i < s.len() && s[i] == x;
                        if 1 <= i < 1 + lp.len() {
                            assert(lp[i - 1] == x);
                            assert(lp.contains(x));
                        } else if i >= 1 + lp.len() {
                            assert(rp[i - lp.len() - 1] == x);
                            assert(rp.contains(x));
                        }
                    }
                    if self.items().contains(x) {
                        if left.items().contains(x) {
                            assert(lp.contains(x));
                            let i = choose|i: int| 0 <= i < lp.len() && lp[i] == x;
                            assert(s[1 + i] == x);
                        } else if right.items().contains(x) {
                            assert(rp.contains(x));
                            let i = choose|i: int| 0 <= i < rp.len() && rp[i] == x;
                            assert(s[lp.len() + 1 + i] == x);
                        } else {
                            assert(s[0] == x);
                        }
                    }
                }
                assert forall|x: A| #[trigger]
                    self.postorder().contains(x) <==> self.items().contains(x) by {
                    let s = (lq + rq).push(item);
                    if s.contains(x) {
                        let i = choose|i: int| 0 <= i < s.len() && s[i] == x;
                        if i < lq.len() {
                            assert(lq[i] == x);
                            assert(lq.contains(x));
                        } else if i < lq.len() + rq.len() {
                            assert(rq[i - lq.len()] == x);
                            assert(rq.contains(x));
                        }
                    }
                    if self.items().contains(x) {
                        if left.items().contains(x) {
                            assert(lq.contains(x));
                            let i = choose|i: int| 0 <= i < lq.len() && lq[i] == x;
                            assert(s[i] == x);
                        } else if right.items().contains(x) {
                            assert(rq.contains(x));
                            let i = choose|i: int| 0 <= i < rq.len() && rq[i] == x;
                            assert(s[lq.len() + i] == x);
                        } else {
                            assert(s[(lq.len() + rq.len()) as int] == x);
                        }
                    }
                }
            },
        }
    }

    /// Leaves and height never exceed the number of nodes, and only the
    /// empty tree has none of them.
    pub proof fn lemma_measures(self)
        ensures
            self.leaves() <= self.size(),
            self.height() <= self.size(),
            self is Nil <==> self.size() == 0,
            self is Nil <==> self.height() == 0,
            self is Nil <==> self.leaves() == 0,
            self is Nil <==> self.items() =~= Set::<A>::empty(),
        decreases self,
    {
        match self {
            Shape::Nil => {},
            Shape::Node { left, item, right } => {
                left.lemma_measures();
                right.lemma_measures();
                assert(self.items().contains(item));
            },
        }
    }
}

impl<T: OrderedKey> Shape<T> {
    /// Binary-search-tree order with every key strictly between `lo` and
    /// `hi`: at each node the keys to the left are smaller and the keys to
    /// the right are larger.
    pub open spec fn ordered_within(self, lo: Option<int>, hi: Option<int>) -> bool
        decreases self,
    {
        match self {
            Shape::Nil => true,
            Shape::Node { left, item, right } => {
                &&& above(lo, item.rank())
                &&& below(hi, item.rank())
                &&& left.ordered_within(lo, Some(item.rank()))
                &&& right.ordered_within(Some(item.rank()), hi)
            },
        }
    }

    /// Binary-search-tree order.
    pub open spec fn is_search_tree(self) -> bool {
        self.ordered_within(None, None)
    }

    /// In a tree ordered within bounds every key respects the bounds.
    pub proof fn lemma_items_within(self, lo: Option<int>, hi: Option<int>)
        requires
            self.ordered_within(lo, hi),
        ensures
            forall|k: T| #[trigger]
                self.items().contains(k) ==> above(lo, k.rank()) && below(hi, k.rank()),
        decreases self,
    {
        match self {
            Shape::Nil => {},
            Shape::Node { left, item, right } => {
                left.lemma_items_within(lo, Some(item.rank()));
                right.lemma_items_within(Some(item.rank()), hi);
                assert forall|k: T| #[trigger] self.items().contains(k) implies above(
                    lo,
                    k.rank(),
                ) && below(hi, k.rank()) by {
                    if left.items().contains(k) {
                    } else if right.items().contains(k) {
                    } else {
                        assert(k == item);
                    }
                }
            },
        }
    }

    /// Bounds may be widened.
    pub proof fn lemma_widen(self, lo: Option<int>, hi: Option<int>, lo2: Option<int>, hi2: Option<int>)
        requires
            self.ordered_within(lo, hi),
            lo2 matches Some(l2) ==> lo matches Some(l) && l2 <= l,
            hi2 matches Some(h2) ==> hi matches Some(h) && h <= h2,
        ensures
            self.ordered_within(lo2, hi2),
        decreases self,
    {
        match self {
            Shape::Nil => {},
            Shape::Node { left, item, right } => {
                left.lemma_widen(lo, Some(item.rank()), lo2, Some(item.rank()));
                right.lemma_widen(Some(item.rank()), hi, Some(item.rank()), hi2);
            },
        }
    }

    /// What the order says at the root of a tree that is not empty: the
    /// key of the root lies within the bounds and parts the keys of the two
    /// subtrees, which are in order themselves.
    pub proof fn lemma_node(self, lo: Option<int>, hi: Option<int>)
        requires
            self.ordered_within(lo, hi),
            self is Node,
        ensures
            above(lo, self->item.rank()),
            below(hi, self->item.rank()),
            self->left.ordered_within(lo, Some(self->item.rank())),
            self->right.ordered_within(Some(self->item.rank()), hi),
            self->left.is_search_tree(),
            self->right.is_search_tree(),
            self.items() == self->left.items().union(self->right.items()).insert(self->item),
            forall|k: T| #[trigger]
                self->left.items().contains(k) ==> above(lo, k.rank()) && k.rank()
                    < self->item.rank(),
            forall|k: T| #[trigger]
                self->right.items().contains(k) ==> self->item.rank() < k.rank() && below(
                    hi,
                    k.rank(),
                ),
    {
        let m = Some(self->item.rank());
        self->left.lemma_items_within(lo, m);
        self->right.lemma_items_within(m, hi);
        self->left.lemma_widen(lo, m, None, None);
        self->right.lemma_widen(m, hi, None, None);
    }

    /// Order of a tree built from a root and two subtrees.
    pub proof fn lemma_built_order(
        left: Shape<T>,
        item: T,
        right: Shape<T>,
        lo: Option<int>,
        hi: Option<int>,
    )
        ensures
            Self::node(left, item, right).ordered_within(lo, hi) == (above(lo, item.rank())
                && below(hi, item.rank()) && left.ordered_within(lo, Some(item.rank()))
                && right.ordered_within(Some(item.rank()), hi)),
    {
    }

    /// A rotation keeps the order.
    pub proof fn lemma_rotation_order(self, lo: Option<int>, hi: Option<int>)
        requires
            self.ordered_within(lo, hi),
        ensures
            self.rotated_right().ordered_within(lo, hi),
            self.rotated_left().ordered_within(lo, hi),
    {
        reveal_with_fuel(Shape::ordered_within, 3);
        match self {
            Shape::Node { left, item, right } => {
                let m = Some(item.rank());
                match *left {
                    Shape::Node { left: a, item: y, right: b } => {
                        right.lemma_widen(m, hi, Some(y.rank()), hi);
                        b.lemma_widen(Some(y.rank()), m, Some(y.rank()), hi);
                    },
                    Shape::Nil => {},
                }
                match *right {
                    Shape::Node { left: b, item: y, right: c } => {
                        left.lemma_widen(lo, m, lo, Some(y.rank()));
                        b.lemma_widen(m, Some(y.rank()), lo, Some(y.rank()));
                    },
                    Shape::Nil => {},
                }
            },
            Shape::Nil => {},
        }
    }

    /// A tree in order all of whose keys lie within other bounds is ordered
    /// within those bounds.
    pub proof fn lemma_rebound(
        self,
        a: Option<int>,
        b: Option<int>,
        lo: Option<int>,
        hi: Option<int>,
    )
        requires
            self.ordered_within(a, b),
            forall|k: T| #[trigger]
                self.items().contains(k) ==> above(lo, k.rank()) && below(hi, k.rank()),
        ensures
            self.ordered_within(lo, hi),
        decreases self,
    {
        match self {
            Shape::Nil => {},
            Shape::Node { left, item, right } => {
                let m = Some(item.rank());
                assert(self.items().contains(item));
                left.lemma_items_within(a, m);
                right.lemma_items_within(m, b);
                assert forall|k: T| #[trigger] left.items().contains(k) implies above(
                    lo,
                    k.rank(),
                ) && below(m, k.rank()) by {
                    assert(self.items().contains(k));
                }
                assert forall|k: T| #[trigger] right.items().contains(k) implies above(
                    m,
                    k.rank(),
                ) && below(hi, k.rank()) by {
                    assert(self.items().contains(k));
                }
                left.lemma_rebound(a, m, lo, m);
                right.lemma_rebound(m, b, m, hi);
            },
        }
    }

    /// The in-order traversal of a search tree is strictly ascending.
    pub proof fn lemma_inorder_ascending(self, lo: Option<int>, hi: Option<int>)
        requires
            self.ordered_within(lo, hi),
        ensures
            forall|i: int, j: int|
                0 <= i < j < self.inorder().len() ==> (#[trigger] self.inorder()[i]).rank() < (
                #[trigger] self.inorder()[j]).rank(),
        decreases self,
    {
        match self {
            Shape::Nil => {},
            Shape::Node { left, item, right } => {
                let m = Some(item.rank());
                left.lemma_inorder_ascending(lo, m);
                right.lemma_inorder_ascending(m, hi);
                left.lemma_items_within(lo, m);
                right.lemma_items_within(m, hi);
                left.lemma_traversals();
                right.lemma_traversals();
                let li = left.inorder();
                let ri = right.inorder();
                let s = self.inorder();
                assert forall|i: int, j: int| 0 <= i < j < s.len() implies (#[trigger] s[i]).rank()
                    < (#[trigger] s[j]).rank() by {
                    if i < li.len() {
                        assert(s[i] == li[i]);
                        assert(li.contains(li[i]));
                        assert(left.items().contains(li[i]));
                    } else if i > li.len() {
                        assert(s[i] == ri[i - li.len() - 1]);
                    }
                    if j < li.len() {
                        assert(s[j] == li[j]);
                    } else if j > li.len() {
                        assert(s[j] == ri[j - li.len() - 1]);
                        assert(ri.contains(ri[j - li.len() - 1]));
                        assert(right.items().contains(ri[j - li.len() - 1]));
                    }
                }
            },
        }
    }

    /// Two search trees with the same keys have the same in-order
    /// traversal.
    pub proof fn lemma_same_items_same_inorder(a: Shape<T>, b: Shape<T>)
        requires
            a.is_search_tree(),
            b.is_search_tree(),
            a.items() == b.items(),
        ensures
            a.inorder() == b.inorder(),
    {
        a.lemma_inorder_ascending(None, None);
        b.lemma_inorder_ascending(None, None);
        a.lemma_traversals();
        b.lemma_traversals();
        a.lemma_size_counts_items(None, None);
        b.lemma_size_counts_items(None, None);
        Self::lemma_ascending_equal(a.inorder(), b.inorder());
    }

    /// Two strictly ascending sequences of the same length with the same
    /// keys are equal.
    pub proof fn lemma_ascending_equal(x: Seq<T>, y: Seq<T>)
        requires
            x.len() == y.len(),
            forall|i: int, j: int|
                0 <= i < j < x.len() ==> (#[trigger] x[i]).rank() < (#[trigger] x[j]).rank(),
            forall|i: int, j: int|
                0 <= i < j < y.len() ==> (#[trigger] y[i]).rank() < (#[trigger] y[j]).rank(),
            forall|k: T| x.contains(k) <==> y.contains(k),
        ensures
            x == y,
        decreases x.len(),
    {
        if x.len() > 0 {
            let n = x.len() - 1;
            // The last keys are the largest, so they are the same key.
            assert(x.contains(x[n]));
            assert(y.contains(y[n]));
            let i = choose|i: int| 0 <= i < y.len() && y[i] == x[n];
            let j = choose|j: int| 0 <= j < x.len() && x[j] == y[n];
            if i < n {
                assert(y[i].rank() < y[n].rank());
            }
            if j < n {
                assert(x[j].rank() < x[n].rank());
            }
            T::lemma_rank_injective(x[n], y[n]);
            let xs = x.drop_last();
            let ys = y.drop_last();
            assert forall|k: T| xs.contains(k) <==> ys.contains(k) by {
                if xs.contains(k) {
                    let p = choose|p: int| 0 <= p < xs.len() && xs[p] == k;
                    assert(x[p] == k);
                    assert(x.contains(k));
                    let q = choose|q: int| 0 <= q < y.len() && y[q] == k;
                    assert(x[p].rank() < x[n].rank());
                    assert(q < n);
                    assert(ys[q] == k);
                }
                if ys.contains(k) {
                    let p = choose|p: int| 0 <= p < ys.len() && ys[p] == k;
                    assert(y[p] == k);
                    assert(y.contains(k));
                    let q = choose|q: int| 0 <= q < x.len() && x[q] == k;
                    assert(y[p].rank() < y[n].rank());
                    assert(q < n);
                    assert(xs[q] == k);
                }
            }
            assert forall|i: int, j: int| 0 <= i < j < xs.len() implies (#[trigger] xs[i]).rank() < (
            #[trigger] xs[j]).rank() by {
                assert(x[i].rank() < x[j].rank());
            }
            assert forall|i: int, j: int| 0 <= i < j < ys.len() implies (#[trigger] ys[i]).rank() < (
            #[trigger] ys[j]).rank() by {
                assert(y[i].rank() < y[j].rank());
            }
            Self::lemma_ascending_equal(xs, ys);
            assert(x =~= xs.push(x[n]));
            assert(y =~= ys.push(y[n]));
        } else {
            assert(x =~= y);
        }
    }

    /// A search tree holds each key once: it has as many nodes as keys.
    pub proof fn lemma_size_counts_items(self, lo: Option<int>, hi: Option<int>)
        requires
            self.ordered_within(lo, hi),
        ensures
            self.items().finite(),
            self.items().len() == self.size(),
        decreases self,
    {
        match self {
            Shape::Nil => {},
            Shape::Node { left, item, right } => {
                let m = Some(item.rank());
                left.lemma_size_counts_items(lo, m);
                right.lemma_size_counts_items(m, hi);
                left.lemma_items_within(lo, m);
                right.lemma_items_within(m, hi);
                assert(left.items().disjoint(right.items())) by {
                    assert forall|k: T| left.items().contains(k) implies !right.items().contains(
                        k,
                    ) by {}
                }
                vstd::set_lib::lemma_set_disjoint_lens(left.items(), right.items());
                let u = left.items().union(right.items());
                assert(!u.contains(item));
                assert(self.items() == u.insert(item));
            },
        }
    }

    /// In a search tree the end of the left spine holds the smallest key
    /// and the end of the right spine the largest.
    pub proof fn lemma_extremes(self, lo: Option<int>, hi: Option<int>)
        requires
            self.ordered_within(lo, hi),
        ensures
            self is Nil <==> self.leftmost() is None,
            self is Nil <==> self.rightmost() is None,
            self.leftmost() matches Some(m) ==> self.items().contains(m) && forall|k: T| #[trigger]
                self.items().contains(k) ==> m.rank() <= k.rank(),
            self.rightmost() matches Some(m) ==> self.items().contains(m) && forall|k: T| #[trigger]
                self.items().contains(k) ==> k.rank() <= m.rank(),
        decreases self,
    {
        match self {
            Shape::Nil => {},
            Shape::Node { left, item, right } => {
                let m = Some(item.rank());
                left.lemma_extremes(lo, m);
                right.lemma_extremes(m, hi);
                left.lemma_items_within(lo, m);
                right.lemma_items_within(m, hi);
                left.lemma_measures();
                right.lemma_measures();
            },
        }
    }
}

} // verus!
