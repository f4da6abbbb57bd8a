//! What a volume holds, apart from how it is laid out: its inodes, names and
//! file extents, its free blocks, its data blocks and their checksums.

use vstd::prelude::*;
use crate::block_io;
use crate::btree::key::{
    BafsKey, ITEM_TYPE_DIRECTORY_ENTRY, ITEM_TYPE_EXTENT_DATA, ITEM_TYPE_INODE,
};
use crate::btree::node::LeafEntry;
use crate::btree::tree;
use crate::checksum_tree;
use crate::dir;
use crate::dir::EntryModel;
use crate::error::BafsError;
use crate::extent;
use crate::extent::BafsExtentData;
use crate::hash;
use crate::inode;
use crate::superblock;

verus! {

/// The first block behind the area of tree nodes: one half of what the journal
/// and the first tree roots leave, and one block more, is for tree nodes, the
/// rest for data.
pub open spec fn node_area_end(total_block_count: u64) -> int {
    let first = superblock::data_area_start(total_block_count) + 3;
    if total_block_count < first {
        first
    } else {
        first + (total_block_count - first) / 2 + 1
    }
}

/// The contents of a volume.
pub struct VolumeState {
    /// Number of blocks of the volume.
    pub total: u64,
    /// Number of inodes that were ever allocated.
    pub inode_count: u64,
    /// The items of the inode tree.
    pub inodes: Map<BafsKey, Seq<u8>>,
    /// The items of the free-extent tree.
    pub free: Map<BafsKey, Seq<u8>>,
    /// The items of the checksum tree.
    pub checksums: Map<BafsKey, Seq<u8>>,
    /// The data blocks.
    pub data: Map<u64, Seq<u8>>,
}

impl VolumeState {
    /// Whether a block belongs to the data area.
    pub open spec fn is_data_block(self, address: u64) -> bool {
        node_area_end(self.total) <= address < self.total
    }

    /// Whether `key` is that of a file extent.
    pub open spec fn is_extent(self, key: BafsKey) -> bool {
        self.inodes.contains_key(key) && key.item_type == ITEM_TYPE_EXTENT_DATA
    }

    /// The file extent under `key`.
    pub open spec fn extent_at(self, key: BafsKey) -> BafsExtentData {
        extent::extent_from(self.inodes[key])
    }

    /// Whether the block at `address` belongs to the file extent under `key`.
    pub open spec fn uses(self, key: BafsKey, address: u64) -> bool {
        self.is_extent(key) && self.extent_at(key).first_disk_block <= address < self.extent_at(
            key,
        ).first_disk_block + self.extent_at(key).block_count
    }

    /// Whether the recorded checksum of a data block is that of its contents.
    pub open spec fn checksum_matches(self, address: u64) -> bool {
        let key = checksum_tree::checksum_key(address);
        self.checksums.contains_key(key) && self.checksums[key] == checksum_tree::checksum_item_bytes(
            checksum_tree::checksum_item_of(address, self.data[address]),
        )
    }

    /// Whether the block at `address` is neither free nor part of a file.
    pub open spec fn unused(self, address: u64) -> bool {
        &&& self.is_data_block(address)
        &&& !extent::is_free(self.free, address)
        &&& forall|key: BafsKey| !#[trigger] self.uses(key, address)
    }

    /// A record of the inode tree is one that can stand there.
    pub open spec fn record_ok(self, key: BafsKey, value: Seq<u8>) -> bool {
        &&& key.object_id <= self.inode_count
        &&& if key.item_type == ITEM_TYPE_INODE {
            &&& key == inode::inode_key(key.object_id)
            &&& value.len() == 128
            &&& inode::inode_from(value).inode_number == key.object_id
        } else if key.item_type == ITEM_TYPE_DIRECTORY_ENTRY {
            directory_record_ok(key.offset, value)
        } else if key.item_type == ITEM_TYPE_EXTENT_DATA {
            let extent = extent::extent_from(value);
            &&& value.len() == 32
            &&& extent.logical_byte_offset == key.offset
            &&& extent.block_count > 0
            &&& node_area_end(self.total) <= extent.first_disk_block
            &&& extent.first_disk_block + extent.block_count <= self.total
        } else {
            false
        }
    }

    /// The contents are in order.
    pub open spec fn ok(self) -> bool {
        &&& self.total >= superblock::data_area_start(self.total) + 13
        &&& forall|key: BafsKey| #[trigger]
            self.inodes.contains_key(key) ==> self.record_ok(key, self.inodes[key])
        &&& extent::free_map_ok(self.free)
        &&& forall|key: BafsKey| #[trigger]
            self.free.contains_key(key) ==> node_area_end(self.total) <= key.offset && key.offset
                + extent::run_at(self.free, key).block_count <= self.total
        &&& forall|left: BafsKey, right: BafsKey, address: u64| #[trigger]
            self.uses(left, address) && #[trigger] self.uses(right, address) ==> left == right
        &&& forall|key: BafsKey, address: u64| #[trigger]
            self.uses(key, address) ==> !extent::is_free(self.free, address)
        &&& forall|key: BafsKey, address: u64| #[trigger]
            self.uses(key, address) ==> self.checksum_matches(address)
        &&& forall|address: u64| #[trigger]
            self.is_data_block(address) ==> self.data.contains_key(address)
                && self.data[address].len() == 4096
    }
}

/// The entries in a directory record belong there: all names have the hash under
/// which the record is kept, and none occurs twice.
pub open spec fn directory_record_ok(hash: u64, value: Seq<u8>) -> bool {
    &&& dir::all_entries(value) is Ok
    &&& dir::names_distinct(dir::all_entries(value)->Ok_0)
    &&& forall|i: int|
        0 <= i < dir::all_entries(value)->Ok_0.len() ==> hash::xxhash64(
            vstd::utf8::encode_utf8((#[trigger] dir::all_entries(value)->Ok_0[i]).filename),
        ) == hash
    &&& value.len() <= tree::max_value_size()
}

/// The contents with a record of the inode tree added or replaced.
pub open spec fn with_record(state: VolumeState, key: BafsKey, value: Seq<u8>) -> VolumeState {
    VolumeState { inodes: state.inodes.insert(key, value), ..state }
}

/// The contents without a record of the inode tree.
pub open spec fn without_record(state: VolumeState, key: BafsKey) -> VolumeState {
    VolumeState { inodes: state.inodes.remove(key), ..state }
}

/// The contents with a data block written.
pub open spec fn with_data_block(
    state: VolumeState,
    address: u64,
    block_data: Seq<u8>,
) -> VolumeState {
    VolumeState {
        data: state.data.insert(address, block_data),
        checksums: state.checksums.insert(
            checksum_tree::checksum_key(address),
            checksum_tree::checksum_item_bytes(
                checksum_tree::checksum_item_of(address, block_data),
            ),
        ),
        ..state
    }
}

/// Adding or replacing the record of an inode or of names.
pub proof fn lemma_with_plain_record(state: VolumeState, key: BafsKey, value: Seq<u8>)
    requires
        state.ok(),
        state.record_ok(key, value),
        key.item_type != ITEM_TYPE_EXTENT_DATA,
    ensures
        with_record(state, key, value).ok(),
        forall|other: BafsKey, address: u64| #[trigger]
            with_record(state, key, value).uses(other, address) == state.uses(other, address),
{
    let after = with_record(state, key, value);
    assert forall|block: u64| #[trigger] after.is_data_block(block) implies after.data.contains_key(
        block,
    ) && after.data[block].len() == 4096 by {
        assert(state.is_data_block(block));
    }
    assert forall|other: BafsKey, address: u64| #[trigger]
        after.uses(other, address) == state.uses(other, address) by {}
    assert forall|other: BafsKey| #[trigger] after.inodes.contains_key(other) implies after.record_ok(
        other,
        after.inodes[other],
    ) by {
        if other != key {
            assert(state.inodes.contains_key(other));
        }
    }
    assert forall|other: BafsKey, address: u64| #[trigger]
        after.uses(other, address) implies after.checksum_matches(address) by {
        assert(state.uses(other, address));
        assert(state.checksum_matches(address));
    }
    assert forall|left: BafsKey, right: BafsKey, address: u64| #[trigger]
        after.uses(left, address) && #[trigger] after.uses(right, address) implies left == right by {
        assert(state.uses(left, address) && state.uses(right, address));
    }
}

/// Removing a record of the inode tree; the blocks of an extent are unused then.
pub proof fn lemma_without_record(state: VolumeState, key: BafsKey)
    requires
        state.ok(),
    ensures
        without_record(state, key).ok(),
        forall|other: BafsKey, address: u64| #[trigger]
            without_record(state, key).uses(other, address) == (other != key && state.uses(
                other,
                address,
            )),
        forall|address: u64| #[trigger]
            state.uses(key, address) ==> without_record(state, key).unused(address),
{
    let after = without_record(state, key);
    assert forall|block: u64| #[trigger] after.is_data_block(block) implies after.data.contains_key(
        block,
    ) && after.data[block].len() == 4096 by {
        assert(state.is_data_block(block));
    }
    assert forall|other: BafsKey, address: u64| #[trigger]
        after.uses(other, address) == (other != key && state.uses(other, address)) by {}
    assert forall|other: BafsKey| #[trigger] after.inodes.contains_key(other) implies after.record_ok(
        other,
        after.inodes[other],
    ) by {
        assert(state.inodes.contains_key(other));
    }
    assert forall|other: BafsKey, address: u64| #[trigger]
        after.uses(other, address) implies after.checksum_matches(address) by {
        assert(state.uses(other, address));
        assert(state.checksum_matches(address));
    }
    assert forall|left: BafsKey, right: BafsKey, address: u64| #[trigger]
        after.uses(left, address) && #[trigger] after.uses(right, address) implies left == right by {
        assert(state.uses(left, address) && state.uses(right, address));
    }
    assert forall|address: u64| #[trigger] state.uses(key, address) implies after.unused(
        address,
    ) by {
        assert(state.inodes.contains_key(key));
        assert(state.record_ok(key, state.inodes[key]));
        assert(!extent::is_free(state.free, address));
        assert forall|other: BafsKey| !#[trigger] after.uses(other, address) by {
            if after.uses(other, address) {
                assert(state.uses(other, address) && state.uses(key, address));
            }
        }
    }
}

/// Taking blocks from the free ones: they are unused then.
pub proof fn lemma_take_blocks(state: VolumeState, item: LeafEntry, requested: u64)
    requires
        state.ok(),
        state.free.contains_key(item.key),
        state.free[item.key] == item.value,
        0 < requested <= extent::free_extent_from(item.value).block_count,
    ensures
        (VolumeState {
            free: extent::allocated_map(state.free, item, requested),
            ..state
        }).ok(),
        forall|address: u64|
            item.key.offset <= address < item.key.offset + requested ==> #[trigger] (VolumeState {
                free: extent::allocated_map(state.free, item, requested),
                ..state
            }).unused(address),
        extent::free_extent_from(item.value).block_address == item.key.offset,
        node_area_end(state.total) <= item.key.offset,
        item.key.offset + requested <= state.total,
{
    let after = VolumeState {
        free: extent::allocated_map(state.free, item, requested),
        ..state
    };
    assert forall|block: u64| #[trigger] after.is_data_block(block) implies after.data.contains_key(
        block,
    ) && after.data[block].len() == 4096 by {
        assert(state.is_data_block(block));
    }
    assert(state.free.contains_key(item.key));
    extent::law_allocation_takes_free_blocks(state.free, item, requested);
    assert forall|other: BafsKey, address: u64| #[trigger]
        after.uses(other, address) == state.uses(other, address) by {}
    assert forall|key: BafsKey| #[trigger] after.inodes.contains_key(key) implies after.record_ok(
        key,
        after.inodes[key],
    ) by {
        assert(state.inodes.contains_key(key));
    }
    assert forall|key: BafsKey| #[trigger] after.free.contains_key(key) implies node_area_end(
        after.total,
    ) <= key.offset && key.offset + extent::run_at(after.free, key).block_count
        <= after.total by {
        let found = extent::free_extent_from(item.value);
        let start = (found.block_address + requested) as u64;
        if found.block_count > requested && key == extent::free_key(start) {
            extent::law_free_extent_round_trip(
                extent::BafsFreeExtent {
                    block_address: start,
                    block_count: (found.block_count - requested) as u64,
                },
            );
        } else {
            assert(state.free.contains_key(key));
        }
    }
    assert forall|key: BafsKey, address: u64| #[trigger]
        after.uses(key, address) implies !extent::is_free(after.free, address) by {
        assert(state.uses(key, address));
    }
    assert forall|key: BafsKey, address: u64| #[trigger]
        after.uses(key, address) implies after.checksum_matches(address) by {
        assert(state.uses(key, address));
        assert(state.checksum_matches(address));
    }
    assert forall|left: BafsKey, right: BafsKey, address: u64| #[trigger]
        after.uses(left, address) && #[trigger] after.uses(right, address) implies left == right by {
        assert(state.uses(left, address) && state.uses(right, address));
    }
    assert forall|address: u64|
        item.key.offset <= address < item.key.offset + requested implies #[trigger] after.unused(
        address,
    ) by {
        assert(extent::is_free(state.free, address));
        assert forall|key: BafsKey| !#[trigger] after.uses(key, address) by {
            if after.uses(key, address) {
                assert(state.uses(key, address));
            }
        }
        assert(!extent::is_free(after.free, address));
    }
}

/// Writing an unused data block.
pub proof fn lemma_with_data_block(state: VolumeState, address: u64, block_data: Seq<u8>)
    requires
        state.ok(),
        state.unused(address),
        block_data.len() == 4096,
    ensures
        with_data_block(state, address, block_data).ok(),
        with_data_block(state, address, block_data).checksum_matches(address),
        forall|other: u64| #[trigger]
            with_data_block(state, address, block_data).unused(other) == state.unused(other),
        forall|other: u64|
            other != address && #[trigger] state.checksum_matches(other) ==> with_data_block(
                state,
                address,
                block_data,
            ).checksum_matches(other),
{
    let after = with_data_block(state, address, block_data);
    assert forall|other: BafsKey, block: u64| #[trigger]
        after.uses(other, block) == state.uses(other, block) by {}
    assert forall|other: u64| #[trigger] after.unused(other) == state.unused(other) by {
        if state.unused(other) {
            assert forall|key: BafsKey| !#[trigger] after.uses(key, other) by {
                assert(!state.uses(key, other));
            }
        }
        if after.unused(other) {
            assert forall|key: BafsKey| !#[trigger] state.uses(key, other) by {
                assert(!after.uses(key, other));
            }
        }
    }
    assert forall|key: BafsKey| #[trigger] after.inodes.contains_key(key) implies after.record_ok(
        key,
        after.inodes[key],
    ) by {
        assert(state.inodes.contains_key(key));
    }
    assert forall|other: u64|
        other != address && #[trigger] state.checksum_matches(other) implies after.checksum_matches(
        other,
    ) by {
        assert(checksum_tree::checksum_key(other) != checksum_tree::checksum_key(address));
    }
    assert forall|key: BafsKey, block: u64| #[trigger]
        after.uses(key, block) implies after.checksum_matches(block) by {
        assert(state.uses(key, block));
        assert(state.checksum_matches(block));
        assert(block != address) by {
            assert(!state.uses(key, address));
        }
    }
    assert forall|key: BafsKey, block: u64| #[trigger]
        after.uses(key, block) implies !extent::is_free(after.free, block) by {
        assert(state.uses(key, block));
    }
    assert forall|left: BafsKey, right: BafsKey, block: u64| #[trigger]
        after.uses(left, block) && #[trigger] after.uses(right, block) implies left == right by {
        assert(state.uses(left, block) && state.uses(right, block));
    }
    assert forall|block: u64| #[trigger] after.is_data_block(block) implies after.data.contains_key(
        block,
    ) && after.data[block].len() == 4096 by {
        assert(state.is_data_block(block));
    }
}

/// Adding a file extent over unused blocks whose checksums match.
pub proof fn lemma_with_extent(state: VolumeState, key: BafsKey, value: Seq<u8>)
    requires
        state.ok(),
        state.record_ok(key, value),
        key.item_type == ITEM_TYPE_EXTENT_DATA,
        forall|address: u64|
            extent::extent_from(value).first_disk_block <= address < extent::extent_from(
                value,
            ).first_disk_block + extent::extent_from(value).block_count ==> #[trigger] state.unused(
                address,
            ) && state.checksum_matches(address),
    ensures
        with_record(state, key, value).ok(),
{
    let after = with_record(state, key, value);
    assert forall|block: u64| #[trigger] after.is_data_block(block) implies after.data.contains_key(
        block,
    ) && after.data[block].len() == 4096 by {
        assert(state.is_data_block(block));
    }
    let run = extent::extent_from(value);
    assert forall|other: BafsKey, address: u64| #[trigger] after.uses(other, address) implies (
    other == key && run.first_disk_block <= address < run.first_disk_block + run.block_count)
        || (other != key && state.uses(other, address)) by {}
    assert forall|other: BafsKey| #[trigger] after.inodes.contains_key(other) implies after.record_ok(
        other,
        after.inodes[other],
    ) by {
        if other != key {
            assert(state.inodes.contains_key(other));
        }
    }
    assert forall|other: BafsKey, address: u64| #[trigger]
        after.uses(other, address) implies after.checksum_matches(address) by {
        if other == key {
            assert(state.unused(address));
        } else {
            assert(state.uses(other, address));
        }
        assert(state.checksum_matches(address));
    }
    assert forall|other: BafsKey, address: u64| #[trigger]
        after.uses(other, address) implies !extent::is_free(after.free, address) by {
        if other == key {
            assert(state.unused(address));
        } else {
            assert(state.uses(other, address));
        }
    }
    assert forall|left: BafsKey, right: BafsKey, address: u64| #[trigger]
        after.uses(left, address) && #[trigger] after.uses(right, address) implies left == right by {
        if left != key && right != key {
            assert(state.uses(left, address) && state.uses(right, address));
        } else if left == key && right != key {
            assert(state.unused(address));
            assert(!state.uses(right, address));
        } else if left != key && right == key {
            assert(state.unused(address));
            assert(!state.uses(left, address));
        }
    }
}

/// Returning unused blocks to the free ones.
pub proof fn lemma_return_blocks(state: VolumeState, address: u64, count: u64)
    requires
        state.ok(),
        count > 0,
        node_area_end(state.total) <= address,
        address + count <= state.total,
        forall|block: u64| address <= block < address + count ==> #[trigger] state.unused(block),
    ensures
        (VolumeState { free: extent::freed_map(state.free, address, count), ..state }).ok(),
        forall|other: u64|
            !(address <= other < address + count) && #[trigger] state.unused(other) ==> (
            VolumeState {
                free: extent::freed_map(state.free, address, count),
                ..state
            }).unused(other),
{
    let after = VolumeState { free: extent::freed_map(state.free, address, count), ..state };
    assert forall|block: u64| #[trigger] after.is_data_block(block) implies after.data.contains_key(
        block,
    ) && after.data[block].len() == 4096 by {
        assert(state.is_data_block(block));
    }
    assert forall|block: u64| address <= block < address + count implies !#[trigger] extent::is_free(
        state.free,
        block,
    ) by {
        assert(state.unused(block));
    }
    extent::law_freeing_returns_blocks(state.free, address, count);
    assert forall|other: BafsKey, block: u64| #[trigger]
        after.uses(other, block) == state.uses(other, block) by {}
    assert forall|key: BafsKey| #[trigger] after.inodes.contains_key(key) implies after.record_ok(
        key,
        after.inodes[key],
    ) by {
        assert(state.inodes.contains_key(key));
    }
    assert forall|key: BafsKey| #[trigger] after.free.contains_key(key) implies node_area_end(
        after.total,
    ) <= key.offset && key.offset + extent::run_at(after.free, key).block_count
        <= after.total by {
        let size = extent::run_at(after.free, key).block_count;
        let first = key.offset;
        let last = (key.offset + size - 1) as u64;
        assert(extent::is_free(after.free, first));
        assert(extent::is_free(after.free, last));
        lemma_free_in_data_area(state, first);
        lemma_free_in_data_area(state, last);
    }
    assert forall|key: BafsKey, block: u64| #[trigger]
        after.uses(key, block) implies !extent::is_free(after.free, block) by {
        assert(state.uses(key, block));
        if address <= block < address + count {
            assert(state.unused(block));
        }
    }
    assert forall|key: BafsKey, block: u64| #[trigger]
        after.uses(key, block) implies after.checksum_matches(block) by {
        assert(state.uses(key, block));
        assert(state.checksum_matches(block));
    }
    assert forall|left: BafsKey, right: BafsKey, block: u64| #[trigger]
        after.uses(left, block) && #[trigger] after.uses(right, block) implies left == right by {
        assert(state.uses(left, block) && state.uses(right, block));
    }
    assert forall|other: u64|
        !(address <= other < address + count) && #[trigger] state.unused(other) implies after.unused(
        other,
    ) by {
        assert(!extent::is_free(after.free, other));
        assert forall|key: BafsKey| !#[trigger] after.uses(key, other) by {
            assert(!state.uses(key, other));
        }
    }
}

proof fn lemma_free_in_data_area(state: VolumeState, address: u64)
    requires
        state.ok(),
    ensures
        extent::is_free(state.free, address) ==> state.is_data_block(address),
{
    if extent::is_free(state.free, address) {
        let key = choose|key: BafsKey|
            #![trigger state.free.contains_key(key)]
            state.free.contains_key(key) && key.offset <= address < key.offset + extent::run_at(
                state.free,
                key,
            ).block_count;
        assert(state.free.contains_key(key));
    }
}

/// The contents with free blocks taken for use.
pub open spec fn with_blocks_taken(
    state: VolumeState,
    item: LeafEntry,
    requested: u64,
) -> VolumeState {
    VolumeState { free: extent::allocated_map(state.free, item, requested), ..state }
}

/// The first `count` blocks of `data`, written from the block `first` on.
pub open spec fn with_data(
    state: VolumeState,
    first: u64,
    data: Seq<u8>,
    count: nat,
) -> VolumeState
    decreases count,
{
    if count == 0 {
        state
    } else {
        with_data_block(
            with_data(state, first, data, (count - 1) as nat),
            (first + count - 1) as u64,
            block_io::block_of(data, count - 1),
        )
    }
}

/// `item` is the first free extent with at least `requested` blocks.
pub open spec fn is_first_fit(
    free: Map<BafsKey, Seq<u8>>,
    item: LeafEntry,
    requested: u64,
) -> bool {
    &&& free.contains_key(item.key)
    &&& free[item.key] == item.value
    &&& extent::run_at(free, item.key).block_count >= requested
    &&& forall|other: BafsKey| #[trigger]
        free.contains_key(other) && other.offset < item.key.offset ==> extent::run_at(
            free,
            other,
        ).block_count < requested
}

/// There is a free extent with at least `requested` blocks.
pub open spec fn has_free_run(free: Map<BafsKey, Seq<u8>>, requested: u64) -> bool {
    exists|key: BafsKey| #[trigger]
        free.contains_key(key) && extent::run_at(free, key).block_count >= requested
}

/// All files and names are as they were.
pub open spec fn files_kept(before: VolumeState, after: VolumeState) -> bool {
    &&& after.total == before.total
    &&& after.inode_count == before.inode_count
    &&& after.inodes == before.inodes
    &&& forall|key: BafsKey, address: u64| #[trigger]
        before.uses(key, address) ==> after.data[address] == before.data[address]
}

pub proof fn lemma_files_kept_joins(first: VolumeState, second: VolumeState, third: VolumeState)
    requires
        files_kept(first, second),
        files_kept(second, third),
    ensures
        files_kept(first, third),
{
    assert forall|key: BafsKey, address: u64| #[trigger]
        first.uses(key, address) implies third.data[address] == first.data[address] by {
        assert(second.uses(key, address));
    }
}

/// No record uses any of the `count` data blocks from `first` on.
pub open spec fn spare_blocks(state: VolumeState, first: int, count: nat) -> bool {
    forall|address: u64| #[trigger]
        state.is_data_block(address) && first <= address < first + count ==> (forall|key: BafsKey|
            !#[trigger] state.uses(key, address))
}

/// Data in blocks that no record uses may change.
pub proof fn lemma_spare_blocks_changed(
    before: VolumeState,
    after: VolumeState,
    first: int,
    count: nat,
)
    requires
        before.ok(),
        spare_blocks(before, first, count),
        after == (VolumeState { data: after.data, ..before }),
        forall|address: u64| #[trigger]
            before.is_data_block(address) ==> after.data.contains_key(address)
                && after.data[address].len() == 4096 && (first <= address < first + count
                || after.data[address] == before.data[address]),
    ensures
        after.ok(),
        files_kept(before, after),
{
    assert forall|key: BafsKey, block: u64| #[trigger]
        after.uses(key, block) == before.uses(key, block) by {}
    assert forall|key: BafsKey| #[trigger] after.inodes.contains_key(key) implies after.record_ok(
        key,
        after.inodes[key],
    ) by {
        assert(before.inodes.contains_key(key));
    }
    assert forall|key: BafsKey, block: u64| #[trigger] before.uses(key, block) implies after.data[block]
        == before.data[block] && before.checksum_matches(block) by {
        assert(before.inodes.contains_key(key));
        assert(before.record_ok(key, before.inodes[key]));
        assert(before.is_data_block(block));
    }
    assert forall|key: BafsKey, block: u64| #[trigger]
        after.uses(key, block) implies after.checksum_matches(block) by {
        assert(before.uses(key, block));
    }
    assert forall|key: BafsKey, block: u64| #[trigger] after.uses(key, block) implies !extent::is_free(
        after.free,
        block,
    ) by {
        assert(before.uses(key, block));
    }
    assert forall|left: BafsKey, right: BafsKey, address: u64| #[trigger]
        after.uses(left, address) && #[trigger] after.uses(right, address) implies left == right by {
        assert(before.uses(left, address) && before.uses(right, address));
    }
    assert forall|address: u64| #[trigger] after.is_data_block(address) implies after.data.contains_key(
        address,
    ) && after.data[address].len() == 4096 by {
        assert(before.is_data_block(address));
    }
}

/// A data block that no file uses may hold anything.
pub proof fn lemma_with_loose_block(state: VolumeState, address: u64, block_data: Seq<u8>)
    requires
        state.ok(),
        state.unused(address),
        block_data.len() == 4096,
    ensures
        (VolumeState { data: state.data.insert(address, block_data), ..state }).ok(),
        files_kept(
            state,
            VolumeState { data: state.data.insert(address, block_data), ..state },
        ),
{
    let after = VolumeState { data: state.data.insert(address, block_data), ..state };
    assert forall|key: BafsKey, block: u64| #[trigger]
        after.uses(key, block) == state.uses(key, block) by {}
    assert forall|key: BafsKey| #[trigger] after.inodes.contains_key(key) implies after.record_ok(
        key,
        after.inodes[key],
    ) by {
        assert(state.inodes.contains_key(key));
    }
    assert forall|key: BafsKey, block: u64| #[trigger] state.uses(key, block) implies block
        != address by {
        assert(!state.uses(key, address));
    }
    assert forall|key: BafsKey, block: u64| #[trigger]
        after.uses(key, block) implies after.checksum_matches(block) by {
        assert(state.uses(key, block));
        assert(state.checksum_matches(block));
    }
    assert forall|key: BafsKey, block: u64| #[trigger]
        after.uses(key, block) implies !extent::is_free(after.free, block) by {
        assert(state.uses(key, block));
    }
    assert forall|left: BafsKey, right: BafsKey, block: u64| #[trigger]
        after.uses(left, block) && #[trigger] after.uses(right, block) implies left == right by {
        assert(state.uses(left, block) && state.uses(right, block));
    }
    assert forall|block: u64| #[trigger] after.is_data_block(block) implies after.data.contains_key(
        block,
    ) && after.data[block].len() == 4096 by {
        assert(state.is_data_block(block));
    }
}

/// Writing unused blocks from `first` on.
pub proof fn lemma_with_data(
    state: VolumeState,
    first: u64,
    data: Seq<u8>,
    count: nat,
    reserved: nat,
)
    requires
        state.ok(),
        count <= reserved,
        first + reserved <= u64::MAX,
        forall|address: u64| first <= address < first + reserved ==> #[trigger] state.unused(
            address,
        ),
    ensures
        with_data(state, first, data, count).ok(),
        files_kept(state, with_data(state, first, data, count)),
        with_data(state, first, data, count).free == state.free,
        forall|address: u64|
            first <= address < first + reserved ==> #[trigger] with_data(
                state,
                first,
                data,
                count,
            ).unused(address),
        forall|address: u64|
            first <= address < first + count ==> #[trigger] with_data(
                state,
                first,
                data,
                count,
            ).checksum_matches(address),
        forall|address: u64|
            first <= address < first + count ==> #[trigger] with_data(
                state,
                first,
                data,
                count,
            ).data[address] == block_io::block_of(data, address - first),
        forall|address: u64|
            !(first <= address < first + count) ==> #[trigger] with_data(
                state,
                first,
                data,
                count,
            ).data[address] == state.data[address],
    decreases count,
{
    if count > 0 {
        lemma_with_data(state, first, data, (count - 1) as nat, reserved);
        let earlier = with_data(state, first, data, (count - 1) as nat);
        let address = (first + count - 1) as u64;
        let after = with_data(state, first, data, count);
        assert(earlier.unused(address));
        assert(state.unused(address));
        lemma_with_data_block(earlier, address, block_io::block_of(data, count - 1));
        assert forall|other: u64| first <= other < first + reserved implies #[trigger] after.unused(
            other,
        ) by {
            assert(earlier.unused(other));
        }
        assert forall|other: u64|
            first <= other < first + count implies #[trigger] after.checksum_matches(other) by {
            if other != address {
                assert(earlier.checksum_matches(other));
            }
        }
        assert forall|key: BafsKey, block: u64| #[trigger]
            state.uses(key, block) implies after.data[block] == state.data[block] by {
            assert(block != address) by {
                assert(!state.uses(key, address));
            }
        }
    }
}

/// What a lookup of a record in the inode tree gives.
pub open spec fn record_of(state: VolumeState, key: BafsKey) -> Result<
    Option<Seq<u8>>,
    BafsError,
> {
    Ok(
        if state.inodes.contains_key(key) {
            Some(state.inodes[key])
        } else {
            None
        },
    )
}

/// The entry of a directory with the given name.
pub open spec fn entry_of(state: VolumeState, directory: u64, name: Seq<char>) -> Option<
    EntryModel,
> {
    let key = dir::entry_key(directory, name);
    if state.inodes.contains_key(key) {
        dir::list_find(dir::all_entries(state.inodes[key])->Ok_0, name)
    } else {
        None
    }
}

/// The contents with room for one more inode number.
pub open spec fn with_inode_count(state: VolumeState, inode_count: u64) -> VolumeState {
    VolumeState { inode_count, ..state }
}

pub proof fn lemma_with_inode_count(state: VolumeState, inode_count: u64)
    requires
        state.ok(),
        inode_count >= state.inode_count,
    ensures
        with_inode_count(state, inode_count).ok(),
{
    let after = with_inode_count(state, inode_count);
    assert forall|key: BafsKey, block: u64| #[trigger]
        after.uses(key, block) == state.uses(key, block) by {}
    assert forall|key: BafsKey| #[trigger] after.inodes.contains_key(key) implies after.record_ok(
        key,
        after.inodes[key],
    ) by {
        assert(state.inodes.contains_key(key));
        assert(state.record_ok(key, state.inodes[key]));
    }
    assert forall|key: BafsKey, block: u64| #[trigger]
        after.uses(key, block) implies after.checksum_matches(block) by {
        assert(state.uses(key, block));
        assert(state.checksum_matches(block));
    }
    assert forall|key: BafsKey, block: u64| #[trigger]
        after.uses(key, block) implies !extent::is_free(after.free, block) by {
        assert(state.uses(key, block));
    }
    assert forall|left: BafsKey, right: BafsKey, block: u64| #[trigger]
        after.uses(left, block) && #[trigger] after.uses(right, block) implies left == right by {
        assert(state.uses(left, block) && state.uses(right, block));
    }
    assert forall|block: u64| #[trigger] after.is_data_block(block) implies after.data.contains_key(
        block,
    ) && after.data[block].len() == 4096 by {
        assert(state.is_data_block(block));
    }
}

/// What the record that may hold a name says of it.
pub proof fn lemma_entry_of(state: VolumeState, directory: u64, name: Seq<char>)
    requires
        state.ok(),
    ensures
        dir::entry_of_record(record_of(state, dir::entry_key(directory, name)), name) == Ok::<
            Option<EntryModel>,
            BafsError,
        >(entry_of(state, directory, name)),
{
    let key = dir::entry_key(directory, name);
    if state.inodes.contains_key(key) {
        assert(state.record_ok(key, state.inodes[key]));
        dir::lemma_find_in_list(state.inodes[key], name);
    }
}

/// Adding an entry to a directory.
pub proof fn lemma_with_entry(state: VolumeState, directory: u64, entry: EntryModel)
    requires
        state.ok(),
        directory <= state.inode_count,
        dir::entry_ok(entry),
        entry_of(state, directory, entry.filename) is None,
        dir::value_with_entry(
            record_of(state, dir::entry_key(directory, entry.filename)),
            entry,
        ).len() <= tree::max_value_size(),
    ensures
        ({
            let key = dir::entry_key(directory, entry.filename);
            let after = with_record(
                state,
                key,
                dir::value_with_entry(record_of(state, key), entry),
            );
            &&& after.ok()
            &&& entry_of(after, directory, entry.filename) == Some(entry)
            &&& forall|other: u64, name: Seq<char>|
                other != directory || name != entry.filename ==> #[trigger] entry_of(
                    after,
                    other,
                    name,
                ) == entry_of(state, other, name)
        }),
{
    let key = dir::entry_key(directory, entry.filename);
    let value = dir::value_with_entry(record_of(state, key), entry);
    let after = with_record(state, key, value);
    if state.inodes.contains_key(key) {
        let old_value = state.inodes[key];
        let old_entries = dir::all_entries(old_value)->Ok_0;
        assert(state.record_ok(key, old_value));
        dir::lemma_append_entry(old_value, entry);
        dir::lemma_list_push(old_entries, entry);
        let entries = dir::all_entries(value)->Ok_0;
        assert(entries == old_entries.push(entry));
        assert forall|i: int| 0 <= i < entries.len() implies hash::xxhash64(
            vstd::utf8::encode_utf8((#[trigger] entries[i]).filename),
        ) == key.offset by {
            if i < old_entries.len() {
                assert(entries[i] == old_entries[i]);
            }
        }
    } else {
        dir::lemma_single_entry(entry);
        dir::lemma_list_push(Seq::empty(), entry);
        assert(Seq::<EntryModel>::empty().push(entry) =~= seq![entry]);
    }
    lemma_with_plain_record(state, key, value);
}

/// The contents without an entry of a directory.
pub open spec fn without_name(state: VolumeState, directory: u64, name: Seq<char>) -> VolumeState {
    let key = dir::entry_key(directory, name);
    let shorter = dir::without_entry(state.inodes[key], name);
    if shorter.len() == 0 {
        without_record(state, key)
    } else {
        with_record(state, key, shorter)
    }
}

/// Removing an entry from a directory.
pub proof fn lemma_without_entry(state: VolumeState, directory: u64, name: Seq<char>)
    requires
        state.ok(),
        entry_of(state, directory, name) is Some,
    ensures
        state.inodes.contains_key(dir::entry_key(directory, name)),
        dir::without_entry(state.inodes[dir::entry_key(directory, name)], name).len()
            <= tree::max_value_size(),
        without_name(state, directory, name).ok(),
        entry_of(without_name(state, directory, name), directory, name) is None,
        forall|other: u64, other_name: Seq<char>|
            other != directory || other_name != name ==> #[trigger] entry_of(
                without_name(state, directory, name),
                other,
                other_name,
            ) == entry_of(state, other, other_name),
{
    let key = dir::entry_key(directory, name);
    let value = state.inodes[key];
    let shorter = dir::without_entry(value, name);
    let entries = dir::all_entries(value)->Ok_0;
    let rest = dir::list_without(entries, name);
    assert(state.record_ok(key, value));
    dir::lemma_remove_entry(value, name);
    dir::lemma_list_without(entries, name);
    if shorter.len() == 0 {
        lemma_without_record(state, key);
        let after = without_record(state, key);
        assert forall|other: u64, other_name: Seq<char>|
            other != directory || other_name != name implies #[trigger] entry_of(
            after,
            other,
            other_name,
        ) == entry_of(state, other, other_name) by {
            if dir::entry_key(other, other_name) == key {
                assert(dir::list_find(rest, other_name) is None);
            }
        }
    } else {
        assert forall|i: int| 0 <= i < rest.len() implies hash::xxhash64(
            vstd::utf8::encode_utf8((#[trigger] rest[i]).filename),
        ) == key.offset by {
            assert(entries.contains(rest[i]));
            let j = choose|j: int| 0 <= j < entries.len() && entries[j] == rest[i];
            assert(entries[j].filename == rest[i].filename);
        }
        lemma_with_plain_record(state, key, shorter);
    }
}

} // verus!
