//! Ordered maps kept in balance: an AVL tree and a red-black tree.
//!
//! Both trees stand for a finite map from keys to values. [`model`] says
//! what the operations do to that map and [`order`] what is asked of the
//! keys. [`node`] holds the nodes that both trees are made of and what a
//! tree of them means, and [`walk`] what a traversal shows of a tree. What
//! an insertion or a removal does to the nodes is said in [`avl`] and in
//! [`red_black`], beside the code that does it.

pub mod avl;
pub mod model;
pub mod node;
pub mod order;
pub mod red_black;
pub mod walk;
