//! Ordered in-memory indexes: an unbalanced binary search tree, an AVL tree
//! and a red-black tree over totally ordered scalar keys, all answering the
//! same read-only queries.
//!
//! - `key`: the keys and their order.
//! - `shape`: binary trees as values, with their measures, traversals and
//!   the search-tree order; every contract speaks of them.
//! - `base`: what the three trees share: nodes, links, the queries, and the
//!   laws that follow from the contracts of insertion and removal.
//! - `bstree`: the unbalanced tree.
//! - `avltree`: the AVL tree.
//! - `rbtree`: the red-black tree, whose nodes live in one store and name
//!   each other by their places.
//! - `rbmodel`: what red-black insertion and removal do to a tree as a
//!   value, which is what the red-black tree promises of them.

pub mod avltree;
pub mod base;
pub mod bstree;
pub mod key;
pub mod rbmodel;
pub mod rbtree;
pub mod shape;
