// A red-black tree of `i32` keys, kept in an arena and verified with Verus.
pub mod rbtree_mod;
