//! Verified linked node structures: a doubly linked list, a bounded
//! circular list that evicts its oldest element once full, a two-pointer
//! cycle-detection traversal, and a binary search tree.
//!
//! The lists keep their nodes in an arena (`Vec<Option<Node<T>>>`) and link
//! them by stable indices instead of raw pointers, so every back and forward
//! reference is checkable and no dangling or aliased access can arise.

pub mod binary_search_tree;
pub mod circular_linked_list;
pub mod floyds_algorithm;
pub mod linked_list;
