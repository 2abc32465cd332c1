//! Verified collections: a red-black tree and its peers, each with a mathematical model of
//! what it holds and contracts that say what every operation does to it.
//!
//! - `red_black`: an ordered map that stays balanced
//! - `b_tree`, `binary`: ordered maps as a B-tree and as a plain search tree
//! - `trie`: a map from strings
//! - `heap`: a min-heap
//! - `graph`: connectivity and shortest ways
//! - `singly_linked_list`, `doubly_linked_list`, `skip_list`: transaction logs
//! - `dynamic_array`: a growing array
//! - `model`, `order`: what the contracts share

pub mod b_tree;
pub mod binary;
pub mod doubly_linked_list;
pub mod dynamic_array;
pub mod graph;
pub mod heap;
pub mod model;
pub mod order;
pub mod red_black;
pub mod singly_linked_list;
pub mod skip_list;
pub mod trie;
