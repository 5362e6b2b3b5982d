//! A red-black tree kept in an index-addressed arena.
//!
//! Every node lives in one densely packed table and refers to its parent and
//! children by table index; a reserved index, `EMPTY`, stands for "no node".
//! The tree holds a multiset of totally ordered values. A new value that
//! equals values already in the tree comes after them in in-order.
//!
//! `BTree::insert` and `BTree::remove` keep the tree balanced, and both are
//! proved to preserve `BTree::wf`: the arena is one tree with mutual links
//! over valid indices, its in-order values never decrease, and it is colored
//! as a red-black tree. The module `laws` spells these invariants out; the
//! module `validate` examines them at run time on any arena. Both operations
//! are also proved to leave exactly the arena that `insert::inserted` and
//! `remove::removed` describe step by step.
//!
//! `BTree::remove` fails with `TreeError::KeyNotFound`, and leaves the tree
//! as it is, when the value is not in the tree. The comparison of the values
//! is asked to be a total order (`order::total_order`). Under a comparison
//! that leaves two values incomparable, a value is still routed in one fixed
//! way, to the right of every value that it is not strictly below, but the
//! order of the tree is then not promised.
pub mod order;
pub mod node;
pub mod tree;
pub mod rotate;
pub mod navigate;
pub mod insert;
pub mod splice;
pub mod pending;
pub mod remove;
pub mod rebalance;
pub mod validate;
pub mod laws;
pub mod history;

pub use node::Node;
pub use node::BLACK;
pub use node::EMPTY;
pub use node::RED;
pub use remove::RemovalData;
pub use remove::TreeError;
pub use tree::BTree;
pub use validate::assert_all;
pub use validate::assert_black_count;
pub use validate::assert_colors;
pub use validate::assert_is_bst;
pub use validate::assert_is_dlinked;
pub use validate::assert_is_rbtree;
