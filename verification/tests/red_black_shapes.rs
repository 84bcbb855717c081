use trees::base::{Linked, Tree, TreeNode};
use trees::rbtree::{NodeColor, RBTree};

const R: NodeColor = NodeColor::Red;
const B: NodeColor = NodeColor::Black;

fn built(keys: &[i32]) -> RBTree<i32> {
    let mut tree: RBTree<i32> = RBTree::new();
    for k in keys {
        assert!(tree.insert(*k));
    }
    tree
}

fn walk(tree: &RBTree<i32>, link: &Option<usize>, out: &mut Vec<(i32, NodeColor)>) {
    if let Some(i) = link {
        let node = tree.node(i);
        out.push((node.get_data(), node.get_color()));
        walk(tree, node.get_left(), out);
        walk(tree, node.get_right(), out);
    }
}

/// The keys with their colors, each node before its children. Together
/// with the ascending order of the keys this fixes the tree.
fn colors(tree: &RBTree<i32>) -> Vec<(i32, NodeColor)> {
    let mut out = Vec::new();
    walk(tree, tree.get_root(), &mut out);
    out
}

#[test]
fn first_key_is_a_black_root() {
    let tree = built(&[5]);
    assert_eq!(colors(&tree), vec![(5, B)]);
}

#[test]
fn red_leaf_below_black_parent() {
    let tree = built(&[5, 3]);
    assert_eq!(colors(&tree), vec![(5, B), (3, R)]);
    let tree = built(&[5, 3, 8]);
    assert_eq!(colors(&tree), vec![(5, B), (3, R), (8, R)]);
}

#[test]
fn red_uncle_recolors() {
    let tree = built(&[5, 3, 8, 1]);
    assert_eq!(colors(&tree), vec![(5, B), (3, B), (1, R), (8, B)]);
}

#[test]
fn straight_line_rotates_once() {
    let tree = built(&[1, 2, 3]);
    assert_eq!(colors(&tree), vec![(2, B), (1, R), (3, R)]);
    let tree = built(&[3, 2, 1]);
    assert_eq!(colors(&tree), vec![(2, B), (1, R), (3, R)]);
}

#[test]
fn zigzag_rotates_twice() {
    let tree = built(&[3, 1, 2]);
    assert_eq!(colors(&tree), vec![(2, B), (1, R), (3, R)]);
    let tree = built(&[1, 3, 2]);
    assert_eq!(colors(&tree), vec![(2, B), (1, R), (3, R)]);
}

#[test]
fn recoloring_moves_up_then_rotates() {
    // 7 arrives below the red 6, which has no sibling: 5, 6 and 7 are in
    // line, so 6 rises above 5.
    let tree = built(&[1, 2, 3, 4, 5, 6, 7]);
    assert_eq!(
        colors(&tree),
        vec![(2, B), (1, B), (4, R), (3, B), (6, B), (5, R), (7, R)]
    );
    // 8 meets the red uncle 5: 5 and 7 turn black, 6 red below the red 4,
    // and 4 rises above 2.
    let tree = built(&[1, 2, 3, 4, 5, 6, 7, 8]);
    assert_eq!(
        colors(&tree),
        vec![(4, B), (2, R), (1, B), (3, B), (6, R), (5, B), (7, B), (8, R)]
    );
}

#[test]
fn deleting_a_red_leaf() {
    let mut tree = built(&[1, 2, 3, 4, 5, 6, 7]);
    assert!(tree.delete(7));
    assert_eq!(colors(&tree), vec![(2, B), (1, B), (4, R), (3, B), (6, B), (5, R)]);
}

#[test]
fn deleting_a_black_node_with_one_red_child() {
    let mut tree = built(&[1, 2, 3, 4]);
    assert_eq!(colors(&tree), vec![(2, B), (1, B), (3, B), (4, R)]);
    assert!(tree.delete(3));
    assert_eq!(colors(&tree), vec![(2, B), (1, B), (4, B)]);
}

#[test]
fn deleting_the_root_of_two_nodes() {
    let mut tree = built(&[1, 2]);
    assert!(tree.delete(1));
    assert_eq!(colors(&tree), vec![(2, B)]);
    let mut tree = built(&[2, 1]);
    assert!(tree.delete(2));
    assert_eq!(colors(&tree), vec![(1, B)]);
}

#[test]
fn black_sibling_without_red_child_below_red_parent() {
    let mut tree = built(&[1, 2, 3, 4, 5, 6, 7]);
    assert!(tree.delete(5));
    assert!(tree.delete(7));
    assert_eq!(colors(&tree), vec![(2, B), (1, B), (4, R), (3, B), (6, B)]);
    assert!(tree.delete(3));
    assert_eq!(colors(&tree), vec![(2, B), (1, B), (4, B), (6, R)]);
}

#[test]
fn black_sibling_without_red_child_below_black_parent() {
    let mut tree = built(&[1, 2, 3, 4]);
    assert!(tree.delete(4));
    assert_eq!(colors(&tree), vec![(2, B), (1, B), (3, B)]);
    assert!(tree.delete(1));
    assert_eq!(colors(&tree), vec![(2, B), (3, R)]);
}

#[test]
fn black_sibling_with_far_red_child() {
    let mut tree = built(&[1, 2, 3, 4, 5, 6, 7]);
    assert!(tree.delete(5));
    assert!(tree.delete(3));
    assert_eq!(colors(&tree), vec![(2, B), (1, B), (6, R), (4, B), (7, B)]);
}

#[test]
fn black_sibling_with_near_red_child() {
    let mut tree = built(&[1, 2, 3, 4, 5, 6, 7]);
    assert!(tree.delete(7));
    assert!(tree.delete(3));
    assert_eq!(colors(&tree), vec![(2, B), (1, B), (5, R), (4, B), (6, B)]);
}

#[test]
fn black_sibling_with_two_red_children() {
    // On the left of its parent the node is repaired by way of the near
    // nephew, on the right by way of the far one: the left child of the
    // sibling decides.
    let mut tree = built(&[1, 2, 3, 4, 5, 6, 7]);
    assert!(tree.delete(3));
    assert_eq!(colors(&tree), vec![(2, B), (1, B), (5, R), (4, B), (6, B), (7, R)]);
    let mut tree = built(&[7, 6, 5, 4, 3, 2, 1]);
    assert_eq!(
        colors(&tree),
        vec![(6, B), (4, R), (2, B), (1, R), (3, R), (5, B), (7, B)]
    );
    assert!(tree.delete(5));
    assert_eq!(colors(&tree), vec![(6, B), (2, R), (1, B), (4, B), (3, R), (7, B)]);
}

#[test]
fn red_sibling_then_recoloring() {
    let mut tree = built(&[1, 2, 3, 4, 5, 6, 7]);
    assert!(tree.delete(5));
    assert!(tree.delete(7));
    assert!(tree.delete(1));
    assert_eq!(colors(&tree), vec![(4, B), (2, B), (3, R), (6, B)]);
}

#[test]
fn node_with_two_children_takes_the_key_before_it() {
    let mut tree = built(&[1, 2, 3, 4, 5, 6, 7]);
    assert!(tree.delete(4));
    assert_eq!(colors(&tree), vec![(2, B), (1, B), (5, R), (3, B), (6, B), (7, R)]);
}

#[test]
fn root_with_two_children_takes_the_key_before_it() {
    let mut tree = built(&[1, 2, 3, 4, 5, 6, 7]);
    assert!(tree.delete(2));
    assert_eq!(colors(&tree), vec![(4, B), (1, B), (3, R), (6, B), (5, R), (7, R)]);
}

#[test]
fn no_op_keeps_every_color() {
    let mut tree = built(&[1, 2, 3, 4, 5, 6, 7]);
    let before = colors(&tree);
    assert!(!tree.insert(4));
    assert_eq!(colors(&tree), before);
    assert!(!tree.delete(9));
    assert_eq!(colors(&tree), before);
}

#[test]
fn round_trip_below_a_black_node_restores_the_tree() {
    let mut tree = built(&[1, 2, 3, 4, 5, 6, 7]);
    let before = colors(&tree);
    // 0 comes to hang below the black 1.
    assert!(tree.insert(0));
    assert_eq!(
        colors(&tree),
        vec![(2, B), (1, B), (0, R), (4, R), (3, B), (6, B), (5, R), (7, R)]
    );
    assert!(tree.delete(0));
    assert_eq!(colors(&tree), before);
    let mut empty: RBTree<i32> = RBTree::new();
    assert!(empty.insert(3));
    assert!(empty.delete(3));
    assert_eq!(colors(&empty), vec![]);
}

#[test]
fn round_trip_below_a_red_node_may_change_the_tree() {
    let mut tree = built(&[1, 2, 3, 4, 5, 6, 7]);
    let before = colors(&tree);
    // 8 comes to hang below the red 7, and the repair reaches the root.
    assert!(tree.insert(8));
    assert!(tree.delete(8));
    assert_eq!(
        colors(&tree),
        vec![(4, B), (2, R), (1, B), (3, B), (6, R), (5, B), (7, B)]
    );
    assert!(colors(&tree) != before);
    assert_eq!(tree.traverse_inorder(), vec![1, 2, 3, 4, 5, 6, 7]);
    assert_eq!(tree.count_nodes(), 7);
    assert_eq!(tree.get_height(), 3);
}
