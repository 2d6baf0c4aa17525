//! Ordered containers of integer keys with verified contracts: a B+Tree of
//! configurable degree, a B-Tree of minimum degree 2, and a binary search
//! tree.
pub mod binary_search_tree;
pub mod bplustree;
pub mod btree;
