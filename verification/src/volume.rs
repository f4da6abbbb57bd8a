//! Volumes: format, mount and unmount, and the operations on files and
//! directories.
//!
//! A [`BafsVolume`] holds the superblock and collects the blocks that were written
//! since the last commit. Tree nodes are never overwritten: a change writes new
//! nodes behind those that are there. One half of the blocks behind the journal
//! is for tree nodes, the other half for file data, so that the two never meet.

use std::collections::BTreeMap;
use vstd::prelude::*;
use crate::block_device::BlockDevice;
use crate::btree::model as tree_model;
use crate::btree::store;
use crate::btree::tree;
use crate::error::BafsError;
use crate::inode;
use crate::inode::BafsInode;
use crate::state;
use crate::superblock;
use crate::superblock::BafsSuperblock;

pub mod accounting;
pub mod beginnings;
pub mod bytewise;
pub mod capacity;
pub mod durability;
pub mod formatting;
pub mod keeping;
pub mod laws;
pub mod listing;
pub mod model;
pub mod mounting;
pub mod naming;
pub mod reading;
pub mod refusals;
pub mod space;
pub mod unlinking;
pub mod writing;

pub use self::formatting::{bafs_format, BafsFormatOptions};
pub use self::model::VolumeModel;
pub use self::mounting::{bafs_mount, bafs_unmount, flush_and_commit};
pub use self::naming::{volume_create_directory, volume_create_file};
pub use self::reading::{
    volume_lookup_directory_entry, volume_read_directory_entry_at_index, volume_read_file_data,
};
pub use self::unlinking::volume_unlink_directory_entry;
pub use self::writing::volume_write_file_data;

verus! {

/// A mounted volume.
pub struct BafsVolume<D: BlockDevice> {
    /// The device that holds the volume.
    pub device: D,
    /// The superblock; every commit writes it.
    pub superblock: BafsSuperblock,
    /// The blocks that were written since the last commit, by address.
    pub dirty_block_cache: BTreeMap<u64, Vec<u8>>,
    /// The id of the next transaction.
    pub next_transaction_id: u64,
    /// The next block for a tree node.
    pub next_free_block: u64,
    /// The blocks of tree nodes that were superseded since the last commit.
    pub superseded_blocks: Vec<u64>,
}

impl<D: BlockDevice> View for BafsVolume<D> {
    type V = VolumeModel;

    open spec fn view(&self) -> VolumeModel {
        VolumeModel {
            disk: self.device.contents(),
            superblock: self.superblock,
            cache: self.dirty_block_cache@,
            next_free: self.next_free_block,
            next_transaction: self.next_transaction_id,
            superseded: self.superseded_blocks@,
        }
    }
}

/// The first block behind the area of tree nodes.
pub fn compute_node_area_end(total_block_count: u64) -> (end: u64)
    ensures
        end == state::node_area_end(total_block_count),
        end + 5000 <= u64::MAX,
{
    let first: u64 = superblock::compute_data_area_start_block(total_block_count) + 3;
    if total_block_count < first {
        first
    } else {
        first + (total_block_count - first) / 2 + 1
    }
}

/// Trees with this many levels are not changed any more.
pub const TREE_LEVEL_LIMIT: u8 = 253;

/// The error with which a change of a tree is refused because of its size: it
/// may write `per_level` nodes for each level and `base` more.
pub open spec fn room_error(
    volume: VolumeModel,
    root: u64,
    per_level: nat,
    base: nat,
) -> Option<BafsError> {
    match tree_model::checked_node(volume.blocks(), root, tree_model::root_span()) {
        Err(error) => Some(error),
        Ok(node) => if node.level >= TREE_LEVEL_LIMIT {
            Some(BafsError::NotSupported)
        } else if volume.next_free + per_level * node.level + base > volume.node_area_end() {
            Some(BafsError::OutOfSpace)
        } else {
            None
        },
    }
}

fn check_room<D: BlockDevice>(
    volume: &BafsVolume<D>,
    root: u64,
    per_level: u64,
    base: u64,
) -> (result: Result<(), BafsError>)
    requires
        store::cache_valid(volume.dirty_block_cache@),
        per_level <= 6,
        base <= 16,
    ensures
        match result {
            Ok(_) => room_error(volume@, root, per_level as nat, base as nat) is None
                && volume.next_free_block + 5000 <= u64::MAX,
            Err(error) => room_error(volume@, root, per_level as nat, base as nat) == Some(error)
                || error == BafsError::InputOutputError && !volume.device.reliable(),
        },
{
    match tree::tree_level(&volume.device, &volume.dirty_block_cache, root) {
        Err(error) => Err(error),
        Ok(level) => {
            if level >= TREE_LEVEL_LIMIT {
                return Err(BafsError::NotSupported);
            }
            assert(per_level * level <= 6 * 255) by (nonlinear_arith)
                requires
                    per_level <= 6,
                    level <= 255,
            ;
            let needed: u64 = per_level * level as u64 + base;
            let end: u64 = compute_node_area_end(volume.superblock.total_block_count);
            if end < needed || volume.next_free_block > end - needed {
                Err(BafsError::OutOfSpace)
            } else {
                Ok(())
            }
        },
    }
}

/// The inode with the given number.
pub open spec fn inode_in(volume: VolumeModel, inode_number: u64) -> Result<BafsInode, BafsError> {
    inode::inode_of_record(
        tree_model::tree_get(
            volume.blocks(),
            volume.superblock.inode_tree_root_block,
            inode::inode_key(inode_number),
        ),
    )
}

/// Read the inode with the given number.
pub fn volume_read_inode<D: BlockDevice>(
    volume: &BafsVolume<D>,
    inode_number: u64,
) -> (result: Result<BafsInode, BafsError>)
    requires
        store::cache_valid(volume.dirty_block_cache@),
    ensures
        result == inode_in(volume@, inode_number) || result == Err::<BafsInode, BafsError>(
            BafsError::InputOutputError,
        ) && !volume.device.reliable(),
{
    inode::read_inode_from_tree(
        &volume.device,
        &volume.dirty_block_cache,
        volume.superblock.inode_tree_root_block,
        inode_number,
    )
}

} // verus!
