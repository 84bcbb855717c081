use trees::base::{Linked, Tree, TreeNode};
use trees::rbtree::{NodeColor, RBTree, RBTreeNode};

fn filled(keys: &[i32]) -> RBTree<i32> {
    let mut tree: RBTree<i32> = RBTree::new();
    for k in keys {
        tree.insert(*k);
    }
    tree
}

/// Checks order, colors, black height and parent links below `link`;
/// returns the black height.
fn check_below(
    tree: &RBTree<i32>,
    link: &Option<usize>,
    parent: Option<usize>,
    lo: Option<i32>,
    hi: Option<i32>,
    parent_red: bool,
) -> u32 {
    match link {
        None => 0,
        Some(i) => {
            let node: &RBTreeNode<i32> = tree.node(i);
            assert_eq!(*node.get_parent(), parent);
            if let Some(l) = lo {
                assert!(l < node.key);
            }
            if let Some(h) = hi {
                assert!(node.key < h);
            }
            let red = node.get_color() == NodeColor::Red;
            assert!(!(red && parent_red));
            let lb = check_below(tree, node.get_left(), Some(*i), lo, Some(node.key), red);
            let rb = check_below(tree, node.get_right(), Some(*i), Some(node.key), hi, red);
            assert_eq!(lb, rb);
            if red {
                lb
            } else {
                lb + 1
            }
        },
    }
}

fn check_invariants(tree: &RBTree<i32>) {
    assert_eq!(tree.root_color(), NodeColor::Black);
    if let Some(r) = tree.get_root() {
        assert_eq!(tree.node(r).get_color(), NodeColor::Black);
    }
    check_below(tree, tree.get_root(), None, None, None, false);
}

fn step(seed: &mut u64) -> u64 {
    *seed = seed.wrapping_mul(6364136223846793005).wrapping_add(1442695040888963407);
    *seed >> 33
}

#[test]
fn seven_ascending_keys() {
    let tree = filled(&[1, 2, 3, 4, 5, 6, 7]);
    let root = tree.get_root().unwrap();
    assert_eq!(tree.node(&root).key, 2);
    assert_eq!(tree.node(&root).get_data(), 2);
    assert_eq!(tree.node(&root).get_color(), NodeColor::Black);
    assert_eq!(tree.root_color(), NodeColor::Black);
    assert_eq!(tree.count_nodes(), 7);
    assert_eq!(tree.get_height(), 4);
    assert_eq!(tree.traverse_inorder(), vec![1, 2, 3, 4, 5, 6, 7]);
    check_invariants(&tree);
}

#[test]
fn seven_ascending_keys_shape() {
    let tree = filled(&[1, 2, 3, 4, 5, 6, 7]);
    // 2 black; 1 black and 4 red below it; 3 and 6 black below 4; 5 and 7
    // red below 6.
    assert_eq!(tree.traverse_preorder(), vec![2, 1, 4, 3, 6, 5, 7]);
    assert_eq!(tree.traverse_postorder(), vec![1, 3, 5, 7, 6, 4, 2]);
    let root = tree.get_root().unwrap();
    let four = tree.node(&root).get_right().unwrap();
    assert_eq!(tree.node(&four).key, 4);
    assert_eq!(tree.node(&four).get_color(), NodeColor::Red);
    let six = tree.node(&four).get_right().unwrap();
    assert_eq!(tree.node(&six).key, 6);
    assert_eq!(tree.node(&six).get_color(), NodeColor::Black);
    let seven = tree.node(&six).get_right().unwrap();
    assert_eq!(tree.node(&seven).get_color(), NodeColor::Red);
    assert_eq!(tree.count_leaves(), 4);
}

#[test]
fn seven_keys_then_two_deletions() {
    let mut tree = filled(&[1, 2, 3, 4, 5, 6, 7]);
    assert_eq!(tree.delete(7), true);
    assert_eq!(tree.count_nodes(), 6);
    assert_eq!(tree.delete(99), false);
    assert_eq!(tree.count_nodes(), 6);
    assert_eq!(tree.delete(5), true);
    assert_eq!(tree.count_nodes(), 5);
    assert!(tree.get_height() <= 3);
    assert_eq!(tree.get_height(), 3);
    assert_eq!(tree.contains(7), false);
    assert_eq!(tree.contains(6), true);
    assert_eq!(tree.traverse_inorder(), vec![1, 2, 3, 4, 6]);
    check_invariants(&tree);
}

#[test]
fn ten_ascending_keys() {
    let mut tree = filled(&[0, 1, 2, 3, 4, 5, 6, 7, 8, 9]);
    assert_eq!(tree.get_height(), 5);
    assert_eq!(tree.count_leaves(), 5);
    check_invariants(&tree);
    for k in 0..5 {
        assert_eq!(tree.delete(k), true);
        check_invariants(&tree);
    }
    assert_eq!(tree.count_nodes(), 5);
    assert_eq!(tree.get_min(), Some(5));
    assert_eq!(tree.get_max(), Some(9));
}

#[test]
fn empty_tree_answers() {
    let tree: RBTree<i32> = RBTree::new();
    assert_eq!(tree.get_height(), 0);
    assert_eq!(tree.get_min(), None);
    assert_eq!(tree.get_max(), None);
    assert_eq!(tree.count_leaves(), 0);
    assert_eq!(tree.count_nodes(), 0);
    assert_eq!(tree.contains(1), false);
    assert_eq!(tree.is_empty(), true);
    assert_eq!(tree.traverse_inorder(), Vec::<i32>::new());
    assert_eq!(tree.traverse_preorder(), Vec::<i32>::new());
    assert_eq!(tree.traverse_postorder(), Vec::<i32>::new());
    assert!(tree.get_root().is_none());
    assert_eq!(tree.root_color(), NodeColor::Black);
}

#[test]
fn three_keys_and_a_duplicate() {
    let mut tree: RBTree<i32> = RBTree::new();
    assert_eq!(tree.insert(1), true);
    assert_eq!(tree.insert(0), true);
    assert_eq!(tree.insert(2), true);
    assert_eq!(tree.get_height(), 2);
    assert_eq!(tree.get_min(), Some(0));
    assert_eq!(tree.get_max(), Some(2));
    assert_eq!(tree.insert(1), false);
    assert!(tree.contains(2));
    assert!(tree.contains(1));
    assert!(!tree.contains(999));
    assert_eq!(tree.count_nodes(), 3);
}

#[test]
fn two_keys_have_one_leaf() {
    let tree = filled(&[1, 2]);
    assert_eq!(tree.count_leaves(), 1);
    assert_eq!(tree.get_height(), 2);
    let root = tree.get_root().unwrap();
    let child = tree.node(&root).get_right().unwrap();
    assert_eq!(tree.node(&child).get_color(), NodeColor::Red);
    assert_eq!(*tree.node(&child).get_parent(), Some(root));
    assert!(tree.node(&root).get_left().is_none());
}

#[test]
fn duplicate_insert_changes_nothing() {
    let mut tree = filled(&[5, 3, 8, 1, 4, 7, 9]);
    let (n, h, l) = (tree.count_nodes(), tree.get_height(), tree.count_leaves());
    let (a, b, c) = (tree.traverse_inorder(), tree.traverse_preorder(), tree.traverse_postorder());
    assert_eq!(tree.insert(4), false);
    assert_eq!(tree.count_nodes(), n);
    assert_eq!(tree.get_height(), h);
    assert_eq!(tree.count_leaves(), l);
    assert_eq!(tree.traverse_inorder(), a);
    assert_eq!(tree.traverse_preorder(), b);
    assert_eq!(tree.traverse_postorder(), c);
    check_invariants(&tree);
}

#[test]
fn missing_delete_changes_nothing() {
    let mut tree = filled(&[5, 3, 8, 1, 4, 7, 9]);
    let (n, h, l) = (tree.count_nodes(), tree.get_height(), tree.count_leaves());
    let (a, b, c) = (tree.traverse_inorder(), tree.traverse_preorder(), tree.traverse_postorder());
    assert_eq!(tree.delete(6), false);
    assert_eq!(tree.count_nodes(), n);
    assert_eq!(tree.get_height(), h);
    assert_eq!(tree.count_leaves(), l);
    assert_eq!(tree.traverse_inorder(), a);
    assert_eq!(tree.traverse_preorder(), b);
    assert_eq!(tree.traverse_postorder(), c);
    check_invariants(&tree);
}

#[test]
fn delete_from_empty_tree() {
    let mut tree: RBTree<i32> = RBTree::new();
    assert_eq!(tree.delete(1), false);
    assert!(tree.is_empty());
}

#[test]
fn delete_only_key() {
    let mut tree = filled(&[1]);
    assert_eq!(tree.delete(1), true);
    assert!(tree.is_empty());
    assert_eq!(tree.insert(2), true);
    assert_eq!(tree.traverse_inorder(), vec![2]);
    check_invariants(&tree);
}

#[test]
fn delete_root_of_two_nodes() {
    let mut tree = filled(&[1, 2]);
    assert_eq!(tree.delete(1), true);
    assert_eq!(tree.traverse_inorder(), vec![2]);
    assert_eq!(tree.get_height(), 1);
    check_invariants(&tree);
    let mut other = filled(&[2, 1]);
    assert_eq!(other.delete(2), true);
    assert_eq!(other.traverse_inorder(), vec![1]);
    check_invariants(&other);
}

#[test]
fn delete_node_with_two_children() {
    let mut tree = filled(&[1, 2, 3, 4, 5, 6, 7]);
    assert_eq!(tree.delete(4), true);
    assert_eq!(tree.traverse_inorder(), vec![1, 2, 3, 5, 6, 7]);
    check_invariants(&tree);
    assert_eq!(tree.delete(2), true);
    assert_eq!(tree.traverse_inorder(), vec![1, 3, 5, 6, 7]);
    check_invariants(&tree);
    assert_eq!(tree.get_min(), Some(1));
}

#[test]
fn descending_keys() {
    let mut tree = filled(&[9, 8, 7, 6, 5, 4, 3, 2, 1, 0]);
    check_invariants(&tree);
    assert_eq!(tree.get_height(), 5);
    assert_eq!(tree.traverse_inorder(), vec![0, 1, 2, 3, 4, 5, 6, 7, 8, 9]);
    for k in [9, 0, 5, 4, 8, 1, 6, 3, 7, 2] {
        assert_eq!(tree.delete(k), true);
        check_invariants(&tree);
    }
    assert!(tree.is_empty());
}

#[test]
fn zigzag_insertions() {
    let tree = filled(&[10, 5, 7]);
    let root = tree.get_root().unwrap();
    assert_eq!(tree.node(&root).key, 7);
    assert_eq!(tree.traverse_preorder(), vec![7, 5, 10]);
    check_invariants(&tree);
    let other = filled(&[10, 15, 12]);
    assert_eq!(other.traverse_preorder(), vec![12, 10, 15]);
    check_invariants(&other);
}

#[test]
fn invariants_hold_under_mixed_operations() {
    let mut seed: u64 = 2024;
    let mut tree: RBTree<i32> = RBTree::new();
    let mut model: Vec<i32> = Vec::new();
    for _ in 0..3000 {
        let key = (step(&mut seed) % 64) as i32;
        if step(&mut seed) % 3 == 0 {
            let was = model.contains(&key);
            assert_eq!(tree.delete(key), was);
            model.retain(|k| *k != key);
        } else {
            let was = model.contains(&key);
            assert_eq!(tree.insert(key), !was);
            if !was {
                model.push(key);
            }
        }
        check_invariants(&tree);
        assert_eq!(tree.count_nodes() as usize, model.len());
    }
    model.sort();
    assert_eq!(tree.traverse_inorder(), model);
}

#[test]
fn height_stays_logarithmic() {
    let mut tree: RBTree<i32> = RBTree::new();
    for k in 0..1000 {
        tree.insert(k);
    }
    let n = tree.count_nodes() as u64;
    let h = tree.get_height();
    assert_eq!(n, 1000);
    // 2^h <= (n + 1)^2
    assert!(h < 64);
    assert!((1u64 << h) <= (n + 1) * (n + 1));
    assert!(h <= 19);
    check_invariants(&tree);
}

#[test]
fn round_trip_restores_keys_and_count() {
    let mut tree = filled(&[10, 6, 11, 3, 8, 5, 2]);
    let before = tree.traverse_inorder();
    let count = tree.count_nodes();
    assert_eq!(tree.insert(0), true);
    assert_eq!(tree.count_nodes(), count + 1);
    assert_eq!(tree.delete(0), true);
    assert_eq!(tree.count_nodes(), count);
    assert_eq!(tree.traverse_inorder(), before);
    check_invariants(&tree);
}

#[test]
fn round_trip_can_lower_the_height() {
    let mut tree = filled(&[10, 6, 11, 3, 8, 5, 2]);
    assert_eq!(tree.get_height(), 4);
    tree.insert(0);
    tree.delete(0);
    assert_eq!(tree.get_height(), 3);
    assert_eq!(tree.count_nodes(), 7);
}

#[test]
fn round_trip_on_empty_tree() {
    let mut tree: RBTree<i32> = RBTree::new();
    tree.insert(3);
    tree.delete(3);
    assert!(tree.is_empty());
    assert_eq!(tree.get_height(), 0);
    assert_eq!(tree.count_nodes(), 0);
}

#[test]
fn clear_empties_the_tree() {
    let mut tree = filled(&[1, 2, 3]);
    tree.clear();
    assert!(tree.is_empty());
    assert_eq!(tree.count_nodes(), 0);
    assert_eq!(tree.insert(1), true);
    assert_eq!(tree.count_nodes(), 1);
}

#[test]
fn places_are_used_again() {
    let mut tree: RBTree<i32> = RBTree::new();
    for round in 0..50 {
        for k in 0..20 {
            tree.insert(k + round);
        }
        for k in 0..20 {
            tree.delete(k + round);
        }
        assert!(tree.is_empty());
    }
    for k in 0..20 {
        tree.insert(k);
    }
    // Twenty nodes occupy the places 0 to 19, whatever was deleted before.
    let mut places: Vec<usize> = Vec::new();
    let mut stack: Vec<usize> = Vec::new();
    if let Some(r) = tree.get_root() {
        stack.push(*r);
    }
    while let Some(i) = stack.pop() {
        places.push(i);
        if let Some(l) = tree.node(&i).get_left() {
            stack.push(*l);
        }
        if let Some(r) = tree.node(&i).get_right() {
            stack.push(*r);
        }
    }
    places.sort();
    assert_eq!(places, (0..20).collect::<Vec<usize>>());
}

#[test]
fn count_follows_insertions_and_deletions() {
    let mut tree: RBTree<i32> = RBTree::new();
    let keys = [41, 7, 19, 3, 88, 54, 20, 21, 22, 1];
    for (i, k) in keys.iter().enumerate() {
        tree.insert(*k);
        assert_eq!(tree.count_nodes() as usize, i + 1);
    }
    for (i, k) in keys.iter().enumerate().take(4) {
        tree.delete(*k);
        assert_eq!(tree.count_nodes() as usize, keys.len() - i - 1);
    }
}

#[test]
fn inorder_is_ascending() {
    let tree = filled(&[41, 7, 19, 3, 88, 54, 20, 21, 22, 1]);
    let keys = tree.traverse_inorder();
    for w in keys.windows(2) {
        assert!(w[0] < w[1]);
    }
    assert_eq!(keys, vec![1, 3, 7, 19, 20, 21, 22, 41, 54, 88]);
}

#[test]
fn other_key_types() {
    let mut small: RBTree<u8> = RBTree::new();
    for k in [200u8, 0, 255, 17] {
        small.insert(k);
    }
    assert_eq!(small.traverse_inorder(), vec![0u8, 17, 200, 255]);
    let mut wide: RBTree<i64> = RBTree::new();
    for k in [i64::MAX, i64::MIN, 0, -1] {
        wide.insert(k);
    }
    assert_eq!(wide.get_min(), Some(i64::MIN));
    assert_eq!(wide.get_max(), Some(i64::MAX));
    assert_eq!(wide.traverse_inorder(), vec![i64::MIN, -1, 0, i64::MAX]);
}

#[test]
fn key_count_is_the_number_of_nodes() {
    let mut tree: RBTree<i32> = RBTree::new();
    assert_eq!(tree.key_count(), 0);
    for k in [5, 1, 9, 3, 7, 3, 5] {
        tree.insert(k);
    }
    assert_eq!(tree.key_count(), 5);
    assert_eq!(tree.key_count(), tree.count_nodes() as usize);
    tree.delete(9);
    tree.delete(4);
    assert_eq!(tree.key_count(), 4);
    assert!(tree.room());
}

#[test]
fn nodes_can_be_printed() {
    let tree = filled(&[1, 2, 3]);
    let root = tree.get_root().unwrap();
    let text = format!("{:?}", tree.node(&root));
    assert!(text.contains("key: 2"));
    assert!(text.contains("Black"));
}

#[test]
fn node_with_two_children_stays_in_its_place() {
    let mut tree = filled(&[1, 2, 3, 4, 5, 6, 7]);
    let root = tree.get_root().unwrap();
    let four = tree.node(&root).get_right().unwrap();
    assert_eq!(tree.node(&four).key, 4);
    assert_eq!(tree.delete(4), true);
    // The place that held 4 holds the next smaller key now.
    assert_eq!(tree.node(&root).key, 2);
    let five = tree.node(&root).get_right().unwrap();
    assert_eq!(tree.node(&five).key, 5);
    assert_eq!(*tree.node(&five).get_left(), Some(four));
    assert_eq!(tree.node(&four).key, 3);
    check_invariants(&tree);
}

#[test]
fn root_with_one_child_stays_in_its_place() {
    let mut tree = filled(&[1, 2]);
    let root = tree.get_root().unwrap();
    assert_eq!(tree.delete(1), true);
    assert_eq!(*tree.get_root(), Some(root));
    assert_eq!(tree.node(&root).key, 2);
    assert_eq!(*tree.node(&root).get_left(), None);
    assert_eq!(*tree.node(&root).get_right(), None);
    check_invariants(&tree);
}
