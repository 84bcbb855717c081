use trees::key::{same_key, OrderedKey};

#[test]
fn precedes_is_strict() {
    assert!(1i32.precedes(&2));
    assert!(!2i32.precedes(&1));
    assert!(!2i32.precedes(&2));
    assert!((-5i8).precedes(&0));
    assert!(0u64.precedes(&u64::MAX));
    assert!(!u64::MAX.precedes(&0));
    assert!(i64::MIN.precedes(&i64::MAX));
    assert!(3u16.precedes(&4));
    assert!((-3i16).precedes(&-2));
    assert!(7usize.precedes(&8));
    assert!((-1isize).precedes(&1));
    assert!(250u8.precedes(&251));
    assert!(9u32.precedes(&10));
}

#[test]
fn same_key_compares_both_ways() {
    assert!(same_key(&5i32, &5));
    assert!(!same_key(&5i32, &6));
    assert!(!same_key(&6i32, &5));
    assert!(same_key(&0u8, &0));
    assert!(!same_key(&u64::MAX, &0));
}

#[test]
fn characters_and_truth_values_are_keys() {
    assert!('a'.precedes(&'b'));
    assert!(!'b'.precedes(&'a'));
    assert!(!'a'.precedes(&'a'));
    assert!(false.precedes(&true));
    assert!(!true.precedes(&false));
    assert!(!true.precedes(&true));
    assert!(same_key(&'x', &'x'));
    assert!(!same_key(&true, &false));
}

#[test]
fn wide_integers_are_keys() {
    assert!(i128::MIN.precedes(&i128::MAX));
    assert!(!u128::MAX.precedes(&0u128));
    assert!(same_key(&u128::MAX, &u128::MAX));
    let mut tree: trees::rbtree::RBTree<char> = trees::rbtree::RBTree::new();
    for c in ['m', 'c', 'x', 'a', 'e'] {
        assert!(trees::base::Tree::insert(&mut tree, c));
    }
    assert_eq!(trees::base::Tree::traverse_inorder(&tree), vec!['a', 'c', 'e', 'm', 'x']);
}
