//! A self-balancing ordered set (AVL tree) with verified contracts.
pub mod avl_tree;



pub use avl_tree::{total_order, AVLTree, Iter};
