//! Sequence-like containers and bit-string tries.

pub mod bit_key;
pub mod doubly_linked_list;
pub mod list;
pub mod lookup;
pub mod loopy_patricia;
pub mod patricia;
pub mod patricia_node;
