//! Disk-usage tree engine: a parent/child tree of filesystem entries with
//! aggregated sizes, hard-link deduplication and size-consistent deletion.

pub mod aggregation;
pub mod confirm_delete;
pub mod deletion;
pub mod disko_tree;
pub mod entry_node;
pub mod entry_size;
pub mod entry_type;
pub mod indicator;
pub mod node;
pub mod node_to_root_iterator;
pub mod sorting;
pub mod table;
pub mod tree;
pub mod tree_walk_state;
pub mod visit;
