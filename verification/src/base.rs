//! What every tree variant offers: its nodes, how they are reached, and the
//! read-only queries, which are written once for all variants.

use vstd::prelude::*;
use crate::key::OrderedKey;
use crate::shape::Shape;

verus! {

/// A node of a tree: a key and the links to its two children.
///
/// What a link is depends on the variant: an owned child, or the place of
/// the child in the store that owns all nodes.
pub trait TreeNode<T: OrderedKey>: Sized {
    type Link;

    /// The link to the left child.
    spec fn left_link(&self) -> Option<Self::Link>;

    /// The link to the right child.
    spec fn right_link(&self) -> Option<Self::Link>;

    /// The key held by the node.
    spec fn data(&self) -> T;

    /// The link to the left child.
    fn get_left(&self) -> (r: &Option<Self::Link>)
        ensures
            *r == self.left_link(),
    ;

    /// The link to the right child.
    fn get_right(&self) -> (r: &Option<Self::Link>)
        ensures
            *r == self.right_link(),
    ;

    /// The key held by the node.
    fn get_data(&self) -> (r: T)
        ensures
            r == self.data(),
    ;
}

/// A rooted structure of linked nodes that stands for a binary search tree.
pub trait Linked<T: OrderedKey, TN: TreeNode<T>>: Sized {
    /// The structure is valid: all invariants of the variant hold.
    spec fn wf(&self) -> bool;

    /// The tree that the structure stands for.
    spec fn shape(&self) -> Shape<T>;

    /// The link leads to a node of this structure.
    spec fn owns(&self, link: TN::Link) -> bool;

    /// The node that a link leads to.
    spec fn node_at(&self, link: TN::Link) -> TN;

    /// Another key can be added without passing a limit of the machine.
    spec fn has_room(&self) -> bool;

    /// A measure that gets smaller from a node to its children.
    spec fn rank(&self, link: Option<TN::Link>) -> nat;

    /// The tree below a link.
    spec fn subtree(&self, link: Option<TN::Link>) -> Shape<T>;

    /// Below an absent link is the empty tree. Below a link to a node is the
    /// node's key with the trees below its two child links, which belong to
    /// the structure too and have a smaller measure.
    proof fn lemma_subtree(&self, link: Option<TN::Link>)
        requires
            self.wf(),
            link is Some ==> self.owns(link->0),
        ensures
            match link {
                None => self.subtree(link) == Shape::<T>::Nil,
                Some(l) => {
                    let n = self.node_at(l);
                    &&& n.left_link() is Some ==> self.owns(n.left_link()->0)
                    &&& n.right_link() is Some ==> self.owns(n.right_link()->0)
                    &&& self.rank(n.left_link()) < self.rank(link)
                    &&& self.rank(n.right_link()) < self.rank(link)
                    &&& self.subtree(link) == (Shape::Node {
                        left: Box::new(self.subtree(n.left_link())),
                        item: n.data(),
                        right: Box::new(self.subtree(n.right_link())),
                    })
                },
            },
    ;

    /// A valid structure stands for a tree in binary-search-tree order.
    proof fn lemma_search_tree(&self)
        requires
            self.wf(),
        ensures
            self.shape().is_search_tree(),
    ;

    /// Whether another key can be added without passing a limit of the
    /// machine.
    fn room(&self) -> (r: bool)
        requires
            self.wf(),
        ensures
            r == self.has_room(),
    ;

    /// The link to the root node; absent when the tree is empty.
    fn get_root(&self) -> (r: &Option<TN::Link>)
        requires
            self.wf(),
        ensures
            *r is Some ==> self.owns(r->0),
            self.subtree(*r) == self.shape(),
    ;

    /// Follows a link to its node.
    fn node<'a>(&'a self, link: &'a TN::Link) -> (n: &'a TN)
        requires
            self.wf(),
            self.owns(*link),
        ensures
            *n == self.node_at(*link),
    ;
}

/// The ordered-container contract: insertion, deletion and the read-only
/// queries, stated over the tree that the structure stands for.
pub trait Tree<T: OrderedKey, TN: TreeNode<T>>: Linked<T, TN> {
    /// Adds `data` to the tree. A key that is already there is left alone
    /// and the tree does not change; the result tells whether the key was
    /// added.
    fn insert(&mut self, data: T) -> (inserted: bool)
        requires
            old(self).wf(),
            old(self).has_room(),
        ensures
            final(self).wf(),
            inserted == !old(self).shape().items().contains(data),
            final(self).shape().items() == old(self).shape().items().insert(data),
            !inserted ==> final(self).shape() == old(self).shape(),
    ;

    /// Removes `data` from the tree. A key that is not there leaves the
    /// tree unchanged; the result tells whether the key was removed.
    fn delete(&mut self, data: T) -> (removed: bool)
        requires
            old(self).wf(),
        ensures
            final(self).wf(),
            removed == old(self).shape().items().contains(data),
            final(self).shape().items() == old(self).shape().items().remove(data),
            !removed ==> final(self).shape() == old(self).shape(),
    ;

    /// Number of nodes on the longest path from the root down.
    fn get_height(&self) -> (h: u32)
        requires
            self.wf(),
            self.shape().height() <= u32::MAX,
        ensures
            h == self.shape().height(),
    {
        height_below(self, self.get_root())
    }

    /// The smallest key, if there is any.
    fn get_min(&self) -> (r: Option<T>)
        requires
            self.wf(),
        ensures
            r is None <==> self.shape() is Nil,
            r == self.shape().leftmost(),
            r matches Some(m) ==> self.shape().items().contains(m) && forall|k: T| #[trigger]
                self.shape().items().contains(k) ==> m.rank() <= k.rank(),
    {
        let root = self.get_root();
        proof {
            self.lemma_search_tree();
            self.shape().lemma_extremes(None, None);
            self.lemma_subtree(*root);
        }
        match root {
            None => None,
            Some(l) => Some(min_below(self, l)),
        }
    }

    /// The largest key, if there is any.
    fn get_max(&self) -> (r: Option<T>)
        requires
            self.wf(),
        ensures
            r is None <==> self.shape() is Nil,
            r == self.shape().rightmost(),
            r matches Some(m) ==> self.shape().items().contains(m) && forall|k: T| #[trigger]
                self.shape().items().contains(k) ==> k.rank() <= m.rank(),
    {
        let root = self.get_root();
        proof {
            self.lemma_search_tree();
            self.shape().lemma_extremes(None, None);
            self.lemma_subtree(*root);
        }
        match root {
            None => None,
            Some(l) => Some(max_below(self, l)),
        }
    }

    /// Number of nodes without children.
    fn count_leaves(&self) -> (n: u32)
        requires
            self.wf(),
            self.shape().leaves() <= u32::MAX,
        ensures
            n == self.shape().leaves(),
    {
        leaves_below(self, self.get_root())
    }

    /// Number of nodes, which is the number of keys.
    fn count_nodes(&self) -> (n: u32)
        requires
            self.wf(),
            self.shape().size() <= u32::MAX,
        ensures
            n == self.shape().size(),
            n == self.shape().items().len(),
    {
        proof {
            self.lemma_search_tree();
            self.shape().lemma_size_counts_items(None, None);
        }
        nodes_below(self, self.get_root())
    }

    /// Number of keys as a machine word, which it always fits. It tells
    /// whether the number of nodes, and with it the number of leaves and
    /// the height, fits the narrower type in which those are answered.
    fn key_count(&self) -> (n: usize)
        requires
            self.wf(),
        ensures
            n == self.shape().size(),
            n == self.shape().items().len(),
            self.shape().leaves() <= n,
            self.shape().height() <= n,
    {
        let keys = self.traverse_inorder();
        proof {
            self.lemma_search_tree();
            self.shape().lemma_traversals();
            self.shape().lemma_measures();
            self.shape().lemma_size_counts_items(None, None);
        }
        keys.len()
    }

    /// The keys in ascending order: left subtree, node, right subtree.
    fn traverse_inorder(&self) -> (keys: Vec<T>)
        requires
            self.wf(),
        ensures
            keys@ == self.shape().inorder(),
            forall|i: int, j: int|
                0 <= i < j < keys@.len() ==> (#[trigger] keys@[i]).rank() < (
                #[trigger] keys@[j]).rank(),
    {
        let mut keys: Vec<T> = Vec::new();
        inorder_below(self, self.get_root(), &mut keys);
        proof {
            self.lemma_search_tree();
            self.shape().lemma_inorder_ascending(None, None);
            assert(keys@ =~= self.shape().inorder());
        }
        keys
    }

    /// The keys with each node before its subtrees.
    fn traverse_preorder(&self) -> (keys: Vec<T>)
        requires
            self.wf(),
        ensures
            keys@ == self.shape().preorder(),
    {
        let mut keys: Vec<T> = Vec::new();
        preorder_below(self, self.get_root(), &mut keys);
        assert(keys@ =~= self.shape().preorder());
        keys
    }

    /// The keys with each node after its subtrees.
    fn traverse_postorder(&self) -> (keys: Vec<T>)
        requires
            self.wf(),
        ensures
            keys@ == self.shape().postorder(),
    {
        let mut keys: Vec<T> = Vec::new();
        postorder_below(self, self.get_root(), &mut keys);
        assert(keys@ =~= self.shape().postorder());
        keys
    }

    /// Whether `value` is a key of the tree.
    fn contains(&self, value: T) -> (found: bool)
        requires
            self.wf(),
        ensures
            found == self.shape().items().contains(value),
    {
        proof {
            self.lemma_search_tree();
        }
        contains_below(self, self.get_root(), value)
    }

    /// Whether the tree holds no key.
    fn is_empty(&self) -> (empty: bool)
        requires
            self.wf(),
        ensures
            empty == (self.shape() is Nil),
            empty == (self.shape().items() =~= Set::<T>::empty()),
    {
        let root = self.get_root();
        proof {
            self.lemma_subtree(*root);
            self.shape().lemma_measures();
        }
        root.is_none()
    }
}

/// Adding a key makes a tree one node larger, unless the key is there
/// already.
pub proof fn lemma_insert_count<T: OrderedKey, TN: TreeNode<T>, TR: Linked<T, TN>>(
    before: &TR,
    after: &TR,
    key: T,
)
    requires
        before.wf(),
        after.wf(),
        after.shape().items() == before.shape().items().insert(key),
    ensures
        after.shape().size() == before.shape().size() + (if before.shape().items().contains(key) {
            0nat
        } else {
            1nat
        }),
{
    before.lemma_search_tree();
    after.lemma_search_tree();
    before.shape().lemma_size_counts_items(None, None);
    after.shape().lemma_size_counts_items(None, None);
}

/// Removing a key makes a tree one node smaller, unless the key is not
/// there.
pub proof fn lemma_delete_count<T: OrderedKey, TN: TreeNode<T>, TR: Linked<T, TN>>(
    before: &TR,
    after: &TR,
    key: T,
)
    requires
        before.wf(),
        after.wf(),
        after.shape().items() == before.shape().items().remove(key),
    ensures
        before.shape().size() == after.shape().size() + (if before.shape().items().contains(key) {
            1nat
        } else {
            0nat
        }),
{
    before.lemma_search_tree();
    after.lemma_search_tree();
    before.shape().lemma_size_counts_items(None, None);
    after.shape().lemma_size_counts_items(None, None);
}

/// A tree that holds the distinct keys `keys`, but the distinct keys `gone`
/// among them, has as many nodes as `keys` is longer than `gone`. With no
/// key gone, it has as many nodes as there are keys.
pub proof fn lemma_count_of_keys<T: OrderedKey, TN: TreeNode<T>, TR: Linked<T, TN>>(
    tree: &TR,
    keys: Seq<T>,
    gone: Seq<T>,
)
    requires
        tree.wf(),
        keys.no_duplicates(),
        gone.no_duplicates(),
        forall|i: int| 0 <= i < gone.len() ==> keys.contains(#[trigger] gone[i]),
        tree.shape().items() == keys.to_set().difference(gone.to_set()),
    ensures
        tree.shape().size() == keys.len() - gone.len(),
{
    tree.lemma_search_tree();
    tree.shape().lemma_size_counts_items(None, None);
    keys.unique_seq_to_set();
    gone.unique_seq_to_set();
    let rest = keys.to_set().difference(gone.to_set());
    assert(rest.union(gone.to_set()) =~= keys.to_set()) by {
        assert forall|k: T| gone.to_set().contains(k) implies keys.to_set().contains(k) by {
            let i = choose|i: int| 0 <= i < gone.len() && gone[i] == k;
            assert(keys.contains(gone[i]));
        }
    }
    assert(rest.disjoint(gone.to_set()));
    vstd::seq_lib::seq_to_set_is_finite(keys);
    vstd::seq_lib::seq_to_set_is_finite(gone);
    vstd::set_lib::lemma_set_disjoint_lens(rest, gone.to_set());
}

/// A call that finds the key that it was to add, or misses the key that it
/// was to remove, leaves the tree as it was, as its contract says, and with
/// it the keys, the number of nodes and of leaves, the height and every
/// traversal.
pub proof fn lemma_no_op<T: OrderedKey, TN: TreeNode<T>, TR: Linked<T, TN>>(
    before: &TR,
    after: &TR,
)
    requires
        after.shape() == before.shape(),
    ensures
        after.shape().items() == before.shape().items(),
        after.shape().size() == before.shape().size(),
        after.shape().leaves() == before.shape().leaves(),
        after.shape().height() == before.shape().height(),
        after.shape().inorder() == before.shape().inorder(),
        after.shape().preorder() == before.shape().preorder(),
        after.shape().postorder() == before.shape().postorder(),
{
}

/// The keys that a tree holds after the first `i` calls, when it was empty
/// and the keys of `keys` are added one by one, and then the keys of `gone`
/// are removed one by one.
pub open spec fn keys_after<T>(keys: Seq<T>, gone: Seq<T>, i: int) -> Set<T> {
    if i <= keys.len() {
        keys.take(i).to_set()
    } else {
        keys.to_set().difference(gone.take(i - keys.len()).to_set())
    }
}

/// The call number `i` did to the keys of the tree what its contract says:
/// `states` holds the tree before the first call and after each call; the
/// calls add the keys of `keys` one by one, and then remove the keys of
/// `gone` one by one.
pub open spec fn called<T: OrderedKey, TN: TreeNode<T>, TR: Linked<T, TN>>(
    states: Seq<TR>,
    keys: Seq<T>,
    gone: Seq<T>,
    i: int,
) -> bool {
    states[i + 1].shape().items() == (if i < keys.len() {
        states[i].shape().items().insert(keys[i])
    } else {
        states[i].shape().items().remove(gone[i - keys.len()])
    })
}

/// After `i` such calls on an empty tree the tree holds the keys that
/// `keys_after` names.
proof fn lemma_keys_of_calls<T: OrderedKey, TN: TreeNode<T>, TR: Linked<T, TN>>(
    states: Seq<TR>,
    keys: Seq<T>,
    gone: Seq<T>,
    i: int,
)
    requires
        states.len() == keys.len() + gone.len() + 1,
        states[0].shape() is Nil,
        forall|j: int| 0 <= j < keys.len() + gone.len() ==> #[trigger] called(states, keys, gone, j),
        0 <= i <= keys.len() + gone.len(),
    ensures
        states[i].shape().items() == keys_after(keys, gone, i),
    decreases i,
{
    let n = keys.len() as int;
    if i == 0 {
        assert(states[0].shape().items() =~= keys.take(0).to_set());
    } else {
        lemma_keys_of_calls(states, keys, gone, i - 1);
        assert(called(states, keys, gone, i - 1));
        if i <= n {
            let k = keys[i - 1];
            let less = keys.take(i - 1);
            let more = keys.take(i);
            assert forall|x: T| more.to_set().contains(x) <==> less.to_set().insert(k).contains(
                x,
            ) by {
                if more.contains(x) {
                    let j = choose|j: int| 0 <= j < more.len() && more[j] == x;
                    if j < i - 1 {
                        assert(less[j] == x);
                    }
                }
                if less.contains(x) {
                    let j = choose|j: int| 0 <= j < less.len() && less[j] == x;
                    assert(more[j] == x);
                }
                assert(more[i - 1] == k);
            }
            assert(more.to_set() =~= less.to_set().insert(k));
        } else {
            let k = gone[i - 1 - n];
            let less = gone.take(i - 1 - n);
            let more = gone.take(i - n);
            assert(keys.take(n) =~= keys);
            assert(gone.take(0).to_set() =~= Set::<T>::empty());
            assert forall|x: T| more.to_set().contains(x) <==> less.to_set().insert(k).contains(
                x,
            ) by {
                if more.contains(x) {
                    let j = choose|j: int| 0 <= j < more.len() && more[j] == x;
                    if j < i - 1 - n {
                        assert(less[j] == x);
                    }
                }
                if less.contains(x) {
                    let j = choose|j: int| 0 <= j < less.len() && less[j] == x;
                    assert(more[j] == x);
                }
                assert(more[i - 1 - n] == k);
            }
            assert(keys_after(keys, gone, i - 1) =~= keys.to_set().difference(less.to_set()));
            assert(keys.to_set().difference(more.to_set()) =~= keys.to_set().difference(
                less.to_set(),
            ).remove(k));
        }
    }
}

/// A tree that was empty, to which n distinct keys were added one by one,
/// has n nodes; after k distinct keys among them were removed one by one,
/// it has n - k nodes. It holds after every call on the way: `states` holds
/// the tree before the first call and after each call.
pub proof fn lemma_count_of_calls<T: OrderedKey, TN: TreeNode<T>, TR: Linked<T, TN>>(
    states: Seq<TR>,
    keys: Seq<T>,
    gone: Seq<T>,
    i: int,
)
    requires
        states.len() == keys.len() + gone.len() + 1,
        forall|j: int| 0 <= j < states.len() ==> (#[trigger] states[j]).wf(),
        states[0].shape() is Nil,
        keys.no_duplicates(),
        gone.no_duplicates(),
        forall|j: int| 0 <= j < gone.len() ==> keys.contains(#[trigger] gone[j]),
        forall|j: int| 0 <= j < keys.len() + gone.len() ==> #[trigger] called(states, keys, gone, j),
        0 <= i <= keys.len() + gone.len(),
    ensures
        states[i].shape().size() == (if i <= keys.len() {
            i
        } else {
            keys.len() - (i - keys.len())
        }),
{
    let n = keys.len() as int;
    lemma_keys_of_calls(states, keys, gone, i);
    if i <= n {
        let added = keys.take(i);
        let none = Seq::<T>::empty();
        assert(added.to_set().difference(none.to_set()) =~= added.to_set());
        lemma_count_of_keys(&states[i], added, none);
    } else {
        let left = gone.take(i - n);
        assert forall|j: int| 0 <= j < left.len() implies keys.contains(#[trigger] left[j]) by {
            assert(left[j] == gone[j]);
        }
        lemma_count_of_keys(&states[i], keys, left);
    }
}

/// Adding a key that is not there and removing it again gives a tree with
/// the keys and the number of nodes that it had before, in which the key
/// is not found; an empty tree is empty again.
pub proof fn lemma_round_trip<T: OrderedKey, TN: TreeNode<T>, TR: Linked<T, TN>>(
    start: &TR,
    with: &TR,
    back: &TR,
    key: T,
)
    requires
        start.wf(),
        with.wf(),
        back.wf(),
        !start.shape().items().contains(key),
        with.shape().items() == start.shape().items().insert(key),
        back.shape().items() == with.shape().items().remove(key),
    ensures
        back.shape().items() == start.shape().items(),
        !back.shape().items().contains(key),
        back.shape().size() == start.shape().size(),
        back.shape().inorder() == start.shape().inorder(),
        start.shape() is Nil ==> back.shape() == start.shape(),
{
    assert(back.shape().items() =~= start.shape().items());
    start.lemma_search_tree();
    back.lemma_search_tree();
    start.shape().lemma_size_counts_items(None, None);
    back.shape().lemma_size_counts_items(None, None);
    start.shape().lemma_measures();
    back.shape().lemma_measures();
    Shape::lemma_same_items_same_inorder(start.shape(), back.shape());
}

/// Height of the tree below `link`.
pub fn height_below<T: OrderedKey, TN: TreeNode<T>, TR: Linked<T, TN>>(
    tree: &TR,
    link: &Option<TN::Link>,
) -> (h: u32)
    requires
        tree.wf(),
        *link is Some ==> tree.owns(link->0),
        tree.subtree(*link).height() <= u32::MAX,
    ensures
        h == tree.subtree(*link).height(),
    decreases tree.rank(*link),
{
    proof {
        tree.lemma_subtree(*link);
    }
    match link {
        None => 0,
        Some(l) => {
            let n = tree.node(l);
            let lh = height_below(tree, n.get_left());
            let rh = height_below(tree, n.get_right());
            if lh >= rh {
                lh + 1
            } else {
                rh + 1
            }
        },
    }
}

/// Number of leaves of the tree below `link`.
pub fn leaves_below<T: OrderedKey, TN: TreeNode<T>, TR: Linked<T, TN>>(
    tree: &TR,
    link: &Option<TN::Link>,
) -> (c: u32)
    requires
        tree.wf(),
        *link is Some ==> tree.owns(link->0),
        tree.subtree(*link).leaves() <= u32::MAX,
    ensures
        c == tree.subtree(*link).leaves(),
    decreases tree.rank(*link),
{
    proof {
        tree.lemma_subtree(*link);
    }
    match link {
        None => 0,
        Some(l) => {
            let n = tree.node(l);
            proof {
                tree.lemma_subtree(n.left_link());
                tree.lemma_subtree(n.right_link());
            }
            if n.get_left().is_none() && n.get_right().is_none() {
                1
            } else {
                let lc = leaves_below(tree, n.get_left());
                let rc = leaves_below(tree, n.get_right());
                lc + rc
            }
        },
    }
}

/// Number of nodes of the tree below `link`.
pub fn nodes_below<T: OrderedKey, TN: TreeNode<T>, TR: Linked<T, TN>>(
    tree: &TR,
    link: &Option<TN::Link>,
) -> (c: u32)
    requires
        tree.wf(),
        *link is Some ==> tree.owns(link->0),
        tree.subtree(*link).size() <= u32::MAX,
    ensures
        c == tree.subtree(*link).size(),
    decreases tree.rank(*link),
{
    proof {
        tree.lemma_subtree(*link);
    }
    match link {
        None => 0,
        Some(l) => {
            let n = tree.node(l);
            let lc = nodes_below(tree, n.get_left());
            let rc = nodes_below(tree, n.get_right());
            lc + rc + 1
        },
    }
}

/// Appends the in-order traversal of the tree below `link` to `out`.
pub fn inorder_below<T: OrderedKey, TN: TreeNode<T>, TR: Linked<T, TN>>(
    tree: &TR,
    link: &Option<TN::Link>,
    out: &mut Vec<T>,
)
    requires
        tree.wf(),
        *link is Some ==> tree.owns(link->0),
    ensures
        final(out)@ == old(out)@ + tree.subtree(*link).inorder(),
    decreases tree.rank(*link),
{
    proof {
        tree.lemma_subtree(*link);
    }
    match link {
        None => {
            assert(out@ =~= old(out)@ + tree.subtree(*link).inorder());
        },
        Some(l) => {
            let n = tree.node(l);
            inorder_below(tree, n.get_left(), out);
            out.push(n.get_data());
            inorder_below(tree, n.get_right(), out);
            assert(out@ =~= old(out)@ + tree.subtree(*link).inorder());
        },
    }
}

/// Appends the pre-order traversal of the tree below `link` to `out`.
pub fn preorder_below<T: OrderedKey, TN: TreeNode<T>, TR: Linked<T, TN>>(
    tree: &TR,
    link: &Option<TN::Link>,
    out: &mut Vec<T>,
)
    requires
        tree.wf(),
        *link is Some ==> tree.owns(link->0),
    ensures
        final(out)@ == old(out)@ + tree.subtree(*link).preorder(),
    decreases tree.rank(*link),
{
    proof {
        tree.lemma_subtree(*link);
    }
    match link {
        None => {
            assert(out@ =~= old(out)@ + tree.subtree(*link).preorder());
        },
        Some(l) => {
            let n = tree.node(l);
            out.push(n.get_data());
            preorder_below(tree, n.get_left(), out);
            preorder_below(tree, n.get_right(), out);
            assert(out@ =~= old(out)@ + tree.subtree(*link).preorder());
        },
    }
}

/// Appends the post-order traversal of the tree below `link` to `out`.
pub fn postorder_below<T: OrderedKey, TN: TreeNode<T>, TR: Linked<T, TN>>(
    tree: &TR,
    link: &Option<TN::Link>,
    out: &mut Vec<T>,
)
    requires
        tree.wf(),
        *link is Some ==> tree.owns(link->0),
    ensures
        final(out)@ == old(out)@ + tree.subtree(*link).postorder(),
    decreases tree.rank(*link),
{
    proof {
        tree.lemma_subtree(*link);
    }
    match link {
        None => {
            assert(out@ =~= old(out)@ + tree.subtree(*link).postorder());
        },
        Some(l) => {
            let n = tree.node(l);
            postorder_below(tree, n.get_left(), out);
            postorder_below(tree, n.get_right(), out);
            out.push(n.get_data());
            assert(out@ =~= old(out)@ + tree.subtree(*link).postorder());
        },
    }
}

/// The key at the end of the left spine below the node at `link`.
pub fn min_below<T: OrderedKey, TN: TreeNode<T>, TR: Linked<T, TN>>(
    tree: &TR,
    link: &TN::Link,
) -> (m: T)
    requires
        tree.wf(),
        tree.owns(*link),
    ensures
        Some(m) == tree.subtree(Some(*link)).leftmost(),
    decreases tree.rank(Some(*link)),
{
    proof {
        tree.lemma_subtree(Some(*link));
    }
    let n = tree.node(link);
    proof {
        tree.lemma_subtree(n.left_link());
    }
    match n.get_left() {
        None => n.get_data(),
        Some(l) => min_below(tree, l),
    }
}

/// The key at the end of the right spine below the node at `link`.
pub fn max_below<T: OrderedKey, TN: TreeNode<T>, TR: Linked<T, TN>>(
    tree: &TR,
    link: &TN::Link,
) -> (m: T)
    requires
        tree.wf(),
        tree.owns(*link),
    ensures
        Some(m) == tree.subtree(Some(*link)).rightmost(),
    decreases tree.rank(Some(*link)),
{
    proof {
        tree.lemma_subtree(Some(*link));
    }
    let n = tree.node(link);
    proof {
        tree.lemma_subtree(n.right_link());
    }
    match n.get_right() {
        None => n.get_data(),
        Some(l) => max_below(tree, l),
    }
}

/// Searches the tree below `link` for `value` by comparing and descending.
pub fn contains_below<T: OrderedKey, TN: TreeNode<T>, TR: Linked<T, TN>>(
    tree: &TR,
    link: &Option<TN::Link>,
    value: T,
) -> (found: bool)
    requires
        tree.wf(),
        *link is Some ==> tree.owns(link->0),
        tree.subtree(*link).is_search_tree(),
    ensures
        found == tree.subtree(*link).items().contains(value),
    decreases tree.rank(*link),
{
    proof {
        tree.lemma_subtree(*link);
    }
    match link {
        None => false,
        Some(l) => {
            let n = tree.node(l);
            let k = n.get_data();
            let ghost left = tree.subtree(n.left_link());
            let ghost right = tree.subtree(n.right_link());
            proof {
                let m = Some(k.rank());
                left.lemma_items_within(None, m);
                right.lemma_items_within(m, None);
                left.lemma_widen(None, m, None, None);
                right.lemma_widen(m, None, None, None);
            }
            let ghost all = tree.subtree(*link);
            assert(all.items() == left.items().union(right.items()).insert(k));
            if value.precedes(&k) {
                assert(!right.items().contains(value));
                contains_below(tree, n.get_left(), value)
            } else if k.precedes(&value) {
                assert(!left.items().contains(value));
                contains_below(tree, n.get_right(), value)
            } else {
                proof {
                    T::lemma_rank_injective(value, k);
                }
                true
            }
        },
    }
}

} // verus!
