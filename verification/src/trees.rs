//! Search trees.

pub mod binary_search_tree;
