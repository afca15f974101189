//! A binary search tree together with a layout pass that assigns every node
//! grid coordinates for drawing.
pub mod bst;
pub mod layout;
pub mod random_tree;
