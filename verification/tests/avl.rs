use trees::avltree::AVLTree;
use trees::base::{Linked, Tree, TreeNode};

fn grown(keys: &[i32]) -> AVLTree<i32> {
    let mut tree: AVLTree<i32> = AVLTree::new();
    for k in keys {
        tree.insert(*k);
    }
    tree
}

/// Checks order and balance below `link`; returns the height.
fn balanced_below(
    tree: &AVLTree<i32>,
    link: &Option<Box<trees::avltree::AVLTreeNode<i32>>>,
    lo: Option<i32>,
    hi: Option<i32>,
) -> i64 {
    match link {
        None => 0,
        Some(l) => {
            let node = tree.node(l);
            if let Some(b) = lo {
                assert!(b < node.data);
            }
            if let Some(b) = hi {
                assert!(node.data < b);
            }
            let lh = balanced_below(tree, node.get_left(), lo, Some(node.data));
            let rh = balanced_below(tree, node.get_right(), Some(node.data), hi);
            assert!((lh - rh).abs() <= 1);
            1 + lh.max(rh)
        },
    }
}

fn check_balance(tree: &AVLTree<i32>) {
    let h = balanced_below(tree, tree.get_root(), None, None);
    assert_eq!(h, tree.get_height() as i64);
}

fn roll(seed: &mut u64) -> u64 {
    *seed = seed.wrapping_mul(6364136223846793005).wrapping_add(1442695040888963407);
    *seed >> 33
}

#[test]
fn avl_seven_ascending_keys() {
    let tree = grown(&[1, 2, 3, 4, 5, 6, 7]);
    let root = tree.get_root().as_ref().unwrap();
    assert_eq!(tree.node(root).data, 4);
    assert_eq!(tree.node(root).get_data(), 4);
    assert_eq!(tree.get_height(), 3);
    assert_eq!(tree.count_leaves(), 4);
    assert_eq!(tree.traverse_preorder(), vec![4, 2, 1, 3, 6, 5, 7]);
    assert_eq!(tree.traverse_inorder(), vec![1, 2, 3, 4, 5, 6, 7]);
    assert_eq!(tree.traverse_postorder(), vec![1, 3, 2, 5, 7, 6, 4]);
    check_balance(&tree);
}

#[test]
fn avl_four_keys() {
    let tree = grown(&[1, 2, 3, 4]);
    assert_eq!(tree.count_nodes(), 4);
    assert_eq!(tree.traverse_preorder(), vec![2, 1, 3, 4]);
}

#[test]
fn avl_double_rotations() {
    let tree = grown(&[3, 1, 2]);
    assert_eq!(tree.traverse_preorder(), vec![2, 1, 3]);
    let other = grown(&[1, 3, 2]);
    assert_eq!(other.traverse_preorder(), vec![2, 1, 3]);
    check_balance(&tree);
    check_balance(&other);
}

#[test]
fn avl_single_rotations() {
    let tree = grown(&[3, 2, 1]);
    assert_eq!(tree.traverse_preorder(), vec![2, 1, 3]);
    let other = grown(&[1, 2, 3]);
    assert_eq!(other.traverse_preorder(), vec![2, 1, 3]);
}

#[test]
fn avl_delete_reports_and_rebalances() {
    let mut tree = grown(&[1, 2, 3, 4, 5, 6, 7]);
    assert_eq!(tree.delete(7), true);
    assert_eq!(tree.count_nodes(), 6);
    assert_eq!(tree.delete(99), false);
    assert_eq!(tree.count_nodes(), 6);
    assert_eq!(tree.delete(5), true);
    assert_eq!(tree.delete(6), true);
    // 4 has lost its right subtree: 2 moves up.
    assert_eq!(tree.traverse_preorder(), vec![2, 1, 4, 3]);
    check_balance(&tree);
}

#[test]
fn avl_delete_node_with_two_children() {
    let mut tree = grown(&[1, 2, 3, 4, 5, 6, 7]);
    assert_eq!(tree.delete(4), true);
    // The smallest key of the right subtree takes the place of 4.
    assert_eq!(tree.traverse_preorder(), vec![5, 2, 1, 3, 6, 7]);
    check_balance(&tree);
}

#[test]
fn avl_empty_tree_answers() {
    let mut tree: AVLTree<i32> = AVLTree::new();
    assert_eq!(tree.get_min(), None);
    assert_eq!(tree.get_max(), None);
    assert_eq!(tree.get_height(), 0);
    assert_eq!(tree.count_leaves(), 0);
    assert_eq!(tree.contains(0), false);
    assert_eq!(tree.delete(0), false);
    assert!(tree.is_empty());
    assert_eq!(tree.traverse_inorder(), Vec::<i32>::new());
}

#[test]
fn avl_duplicate_insert_changes_nothing() {
    let mut tree = grown(&[5, 3, 8, 1, 4, 7, 9]);
    let shape = tree.traverse_preorder();
    assert_eq!(tree.insert(8), false);
    assert_eq!(tree.traverse_preorder(), shape);
    assert_eq!(tree.count_nodes(), 7);
    assert_eq!(tree.delete(6), false);
    assert_eq!(tree.traverse_preorder(), shape);
}

#[test]
fn avl_balance_holds_under_mixed_operations() {
    let mut seed: u64 = 99;
    let mut tree: AVLTree<i32> = AVLTree::new();
    let mut model: Vec<i32> = Vec::new();
    for _ in 0..3000 {
        let key = (roll(&mut seed) % 64) as i32;
        if roll(&mut seed) % 3 == 0 {
            let was = model.contains(&key);
            assert_eq!(tree.delete(key), was);
            model.retain(|k| *k != key);
        } else {
            let was = model.contains(&key);
            assert_eq!(tree.insert(key), !was);
            if !was {
                model.push(key);
            }
        }
        check_balance(&tree);
        assert_eq!(tree.count_nodes() as usize, model.len());
    }
    model.sort();
    assert_eq!(tree.traverse_inorder(), model);
}

#[test]
fn avl_height_bound() {
    let mut tree: AVLTree<i32> = AVLTree::new();
    for k in 0..1000 {
        tree.insert(k);
    }
    let h = tree.get_height() as usize;
    let n = tree.count_nodes() as u64;
    // fib(h + 2) <= n + 1
    let mut fib: Vec<u64> = vec![0, 1];
    while fib.len() <= h + 2 {
        let k = fib.len();
        fib.push(fib[k - 1] + fib[k - 2]);
    }
    assert!(fib[h + 2] <= n + 1);
    assert_eq!(h, 10);
}

#[test]
fn avl_clear_empties_the_tree() {
    let mut tree = grown(&[1, 2, 3]);
    tree.clear();
    assert!(tree.is_empty());
    assert_eq!(tree.insert(1), true);
    assert_eq!(tree.count_nodes(), 1);
}

#[test]
fn avl_round_trip_restores_keys_and_count() {
    let mut tree = grown(&[10, 6, 11, 3, 8, 5, 2]);
    let before = tree.traverse_inorder();
    tree.insert(0);
    assert_eq!(tree.count_nodes(), 8);
    tree.delete(0);
    assert_eq!(tree.count_nodes(), 7);
    assert_eq!(tree.traverse_inorder(), before);
}

#[test]
fn avl_round_trip_restores_the_height() {
    // Adding 2 rotates twice below the root; removing it again does not
    // bring the old tree back, but its height.
    let mut tree = grown(&[10, 3, 20, 1]);
    assert_eq!(tree.traverse_preorder(), vec![10, 3, 1, 20]);
    assert_eq!(tree.get_height(), 3);
    assert_eq!(tree.insert(2), true);
    assert_eq!(tree.traverse_preorder(), vec![10, 2, 1, 3, 20]);
    assert_eq!(tree.get_height(), 3);
    assert_eq!(tree.delete(2), true);
    assert_eq!(tree.traverse_preorder(), vec![10, 3, 1, 20]);
    assert_eq!(tree.get_height(), 3);
    check_balance(&tree);
}

#[test]
fn avl_round_trip_restores_the_height_of_any_tree() {
    let mut seed: u64 = 77;
    let mut tree: AVLTree<i32> = AVLTree::new();
    for _ in 0..400 {
        let k = (roll(&mut seed) % 1000) as i32 * 2;
        tree.insert(k);
        let height = tree.get_height();
        let count = tree.count_nodes();
        let odd = (roll(&mut seed) % 1000) as i32 * 2 + 1;
        assert_eq!(tree.insert(odd), true);
        assert_eq!(tree.delete(odd), true);
        assert_eq!(tree.get_height(), height);
        assert_eq!(tree.count_nodes(), count);
        check_balance(&tree);
    }
}

#[test]
fn avl_key_count_and_room() {
    let mut tree = grown(&[4, 2, 6, 1, 3]);
    assert!(tree.room());
    assert_eq!(tree.key_count(), 5);
    tree.delete(4);
    assert_eq!(tree.key_count(), 4);
    assert_eq!(tree.key_count(), tree.count_nodes() as usize);
    let empty: AVLTree<i32> = AVLTree::new();
    assert!(empty.room());
    assert_eq!(empty.key_count(), 0);
}

#[test]
fn avl_tree_can_be_printed() {
    let tree = grown(&[1, 2, 3]);
    let text = format!("{:?}", tree);
    assert!(text.contains("data: 2"));
    assert!(text.contains("_height: 2"));
}
