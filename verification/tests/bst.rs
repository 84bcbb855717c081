use trees::base::{Linked, Tree, TreeNode};
use trees::bstree::BSTree;

fn planted(keys: &[i32]) -> BSTree<i32> {
    let mut tree: BSTree<i32> = BSTree::new();
    for k in keys {
        tree.insert(*k);
    }
    tree
}

#[test]
fn bst_keeps_insertion_shape() {
    let tree = planted(&[4, 2, 6, 1, 3, 5, 7]);
    assert_eq!(tree.traverse_preorder(), vec![4, 2, 1, 3, 6, 5, 7]);
    assert_eq!(tree.traverse_inorder(), vec![1, 2, 3, 4, 5, 6, 7]);
    assert_eq!(tree.traverse_postorder(), vec![1, 3, 2, 5, 7, 6, 4]);
    assert_eq!(tree.get_height(), 3);
    assert_eq!(tree.count_leaves(), 4);
    let root = tree.get_root().as_ref().unwrap();
    assert_eq!(tree.node(root).get_data(), 4);
    assert_eq!(tree.node(tree.node(root).get_left().as_ref().unwrap()).get_data(), 2);
    assert_eq!(tree.node(tree.node(root).get_right().as_ref().unwrap()).get_data(), 6);
}

#[test]
fn bst_ascending_keys_form_a_chain() {
    let tree = planted(&[1, 2, 3, 4, 5]);
    assert_eq!(tree.get_height(), 5);
    assert_eq!(tree.count_leaves(), 1);
    assert_eq!(tree.get_min(), Some(1));
    assert_eq!(tree.get_max(), Some(5));
}

#[test]
fn bst_delete_leaf() {
    let mut tree = planted(&[4, 2, 6, 1, 3, 5, 7]);
    assert_eq!(tree.delete(1), true);
    assert_eq!(tree.traverse_preorder(), vec![4, 2, 3, 6, 5, 7]);
    assert_eq!(tree.delete(7), true);
    assert_eq!(tree.traverse_preorder(), vec![4, 2, 3, 6, 5]);
}

#[test]
fn bst_delete_node_with_one_child() {
    let mut tree = planted(&[4, 2, 6, 1, 7]);
    assert_eq!(tree.delete(2), true);
    assert_eq!(tree.traverse_preorder(), vec![4, 1, 6, 7]);
    assert_eq!(tree.delete(6), true);
    assert_eq!(tree.traverse_preorder(), vec![4, 1, 7]);
}

#[test]
fn bst_delete_node_with_two_children() {
    let mut tree = planted(&[4, 2, 6, 1, 3, 5, 7]);
    assert_eq!(tree.delete(2), true);
    // The smallest key of the right subtree takes the place of 2.
    assert_eq!(tree.traverse_preorder(), vec![4, 3, 1, 6, 5, 7]);
    assert_eq!(tree.delete(6), true);
    assert_eq!(tree.traverse_preorder(), vec![4, 3, 1, 7, 5]);
}

#[test]
fn bst_delete_root() {
    let mut tree = planted(&[4, 2, 6, 1, 3, 5, 7]);
    assert_eq!(tree.delete(4), true);
    assert_eq!(tree.traverse_preorder(), vec![5, 2, 1, 3, 6, 7]);
    let mut chain = planted(&[1, 2, 3]);
    assert_eq!(chain.delete(1), true);
    assert_eq!(chain.traverse_preorder(), vec![2, 3]);
    let mut other = planted(&[3, 2, 1]);
    assert_eq!(other.delete(3), true);
    assert_eq!(other.traverse_preorder(), vec![2, 1]);
    let mut single = planted(&[1]);
    assert_eq!(single.delete(1), true);
    assert!(single.is_empty());
}

#[test]
fn bst_missing_and_duplicate_keys() {
    let mut tree = planted(&[4, 2, 6]);
    assert_eq!(tree.insert(2), false);
    assert_eq!(tree.delete(5), false);
    assert_eq!(tree.count_nodes(), 3);
    assert_eq!(tree.traverse_preorder(), vec![4, 2, 6]);
    let mut empty: BSTree<i32> = BSTree::new();
    assert_eq!(empty.delete(1), false);
    assert_eq!(empty.get_min(), None);
    assert_eq!(empty.get_max(), None);
}

#[test]
fn bst_round_trip_restores_the_shape() {
    let mut tree = planted(&[10, 6, 11, 3, 8, 5, 2]);
    let shape = tree.traverse_preorder();
    let height = tree.get_height();
    tree.insert(0);
    tree.delete(0);
    assert_eq!(tree.traverse_preorder(), shape);
    assert_eq!(tree.get_height(), height);
    assert_eq!(tree.count_nodes(), 7);
}

#[test]
fn bst_clear_empties_the_tree() {
    let mut tree = planted(&[1, 2, 3]);
    tree.clear();
    assert!(tree.is_empty());
    assert_eq!(tree.count_nodes(), 0);
}

#[test]
fn bst_agrees_with_a_sorted_list() {
    let mut seed: u64 = 7;
    let mut tree: BSTree<i32> = BSTree::new();
    let mut model: Vec<i32> = Vec::new();
    for _ in 0..2000 {
        seed = seed.wrapping_mul(6364136223846793005).wrapping_add(1442695040888963407);
        let key = ((seed >> 33) % 50) as i32;
        seed = seed.wrapping_mul(6364136223846793005).wrapping_add(1442695040888963407);
        if (seed >> 33) % 3 == 0 {
            assert_eq!(tree.delete(key), model.contains(&key));
            model.retain(|k| *k != key);
        } else {
            assert_eq!(tree.insert(key), !model.contains(&key));
            if !model.contains(&key) {
                model.push(key);
            }
        }
        assert_eq!(tree.count_nodes() as usize, model.len());
    }
    model.sort();
    assert_eq!(tree.traverse_inorder(), model);
}

#[test]
fn bst_key_count_and_room() {
    let mut tree = planted(&[4, 2, 6, 1, 3, 2]);
    assert!(tree.room());
    assert_eq!(tree.key_count(), 5);
    tree.delete(6);
    assert_eq!(tree.key_count(), 4);
}
