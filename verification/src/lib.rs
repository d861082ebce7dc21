//! Classic data structures and algorithms with machine-checked contracts:
//! a compressed binary trie over bit strings, linked lists, comparison
//! sorts, a binary search tree and a small undirected graph.

pub mod collections;
pub mod graphs;
pub mod order;
pub mod sort_algorithms;
pub mod trees;
