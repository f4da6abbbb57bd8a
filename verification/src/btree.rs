//! Copy-on-write B-trees, the one structure that holds all metadata.
//!
//! The inode tree, the free-extent tree and the checksum tree have the same
//! format; each has a root block of its own. A change to a tree never
//! overwrites a node: the leaf that changes and all nodes on the way to it are
//! written to new blocks, and the caller gets the address of the new root. New
//! blocks stay in a cache until the transaction commits, and reads see the
//! cache first.

pub mod behaviour;
pub mod fanout;
pub mod growth;
pub mod key;
pub mod model;
pub mod node;
pub mod reach;
pub mod store;
pub mod tree;

pub use self::key::{
    BafsKey, ITEM_TYPE_CHECKSUM_ENTRY, ITEM_TYPE_DIRECTORY_ENTRY, ITEM_TYPE_EXTENT_DATA,
    ITEM_TYPE_INODE,
};
pub use self::node::{
    deserialise_node_from_block, serialise_node_to_block, BafsInternalItem, BafsLeafItem,
    BafsTreeNode,
};
pub use self::store::{
    read_block, read_tree_node, write_block_to_cache, write_tree_node_to_cache,
};
pub use self::tree::{
    create_empty_tree, delete_from_tree, insert_into_tree, iterate_tree_range, lookup_in_tree,
};
