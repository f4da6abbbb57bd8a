//! Extents: contiguous runs of blocks, those of files and those that are free.
//!
//! A file's extents are items of the inode tree; free extents have a tree of
//! their own. Allocation is first-fit, in the order of block addresses, and
//! freed blocks are merged with the free extents next to them.

use std::collections::BTreeMap;
use vstd::prelude::*;
use crate::block_device::BlockDevice;
use crate::btree::fanout;
use crate::btree::key;
use crate::btree::key::{BafsKey, ITEM_TYPE_EXTENT_DATA};
use crate::btree::model;
use crate::btree::node;
use crate::btree::node::{BafsLeafItem, LeafEntry};
use crate::btree::store;
use crate::btree::tree;
use crate::btree::tree::TreeStage;
use crate::bytes;
use crate::error::BafsError;
use crate::superblock::BAFS_FREE_EXTENT_OBJECT_ID;

verus! {

broadcast use {crate::btree::store::lemma_stamped_none, crate::bytes::lemma_le_bytes_len};

/// A run of blocks that holds file data, 32 bytes on disk.
#[derive(Clone, Copy, Debug)]
pub struct BafsExtentData {
    /// Byte offset in the file at which the extent begins.
    pub logical_byte_offset: u64,
    /// The first block.
    pub first_disk_block: u64,
    /// Number of blocks.
    pub block_count: u64,
    /// Flags; none are defined.
    pub extent_flags: u32,
    /// Reserved.
    pub reserved: u32,
}

/// A run of free blocks, 16 bytes on disk.
#[derive(Clone, Copy, Debug)]
pub struct BafsFreeExtent {
    /// The first block.
    pub block_address: u64,
    /// Number of blocks.
    pub block_count: u64,
}

/// The encoding of a file extent.
pub open spec fn extent_bytes(extent: BafsExtentData) -> Seq<u8> {
    bytes::le_bytes(extent.logical_byte_offset as nat, 8) + bytes::le_bytes(
        extent.first_disk_block as nat,
        8,
    ) + bytes::le_bytes(extent.block_count as nat, 8) + bytes::le_bytes(
        extent.extent_flags as nat,
        4,
    ) + bytes::le_bytes(extent.reserved as nat, 4)
}

/// The file extent that is encoded in `source`.
pub open spec fn extent_from(source: Seq<u8>) -> BafsExtentData {
    BafsExtentData {
        logical_byte_offset: bytes::field(source, 0, 8) as u64,
        first_disk_block: bytes::field(source, 8, 8) as u64,
        block_count: bytes::field(source, 16, 8) as u64,
        extent_flags: bytes::field(source, 24, 4) as u32,
        reserved: bytes::field(source, 28, 4) as u32,
    }
}

/// The encoding of a free extent.
pub open spec fn free_extent_bytes(extent: BafsFreeExtent) -> Seq<u8> {
    bytes::le_bytes(extent.block_address as nat, 8) + bytes::le_bytes(extent.block_count as nat, 8)
}

/// The free extent that is encoded in `source`.
pub open spec fn free_extent_from(source: Seq<u8>) -> BafsFreeExtent {
    BafsFreeExtent {
        block_address: bytes::field(source, 0, 8) as u64,
        block_count: bytes::field(source, 8, 8) as u64,
    }
}

/// Reading back an encoded file extent gives the extent.
pub proof fn law_extent_round_trip(extent: BafsExtentData)
    ensures
        extent_bytes(extent).len() == 32,
        extent_from(extent_bytes(extent)) == extent,
{
    bytes::lemma_byte_capacities();
    let encoded = extent_bytes(extent);
    assert(encoded.subrange(0, 8) =~= bytes::le_bytes(extent.logical_byte_offset as nat, 8));
    bytes::lemma_field(encoded, 0, 8, extent.logical_byte_offset as nat);
    assert(encoded.subrange(8, 16) =~= bytes::le_bytes(extent.first_disk_block as nat, 8));
    bytes::lemma_field(encoded, 8, 8, extent.first_disk_block as nat);
    assert(encoded.subrange(16, 24) =~= bytes::le_bytes(extent.block_count as nat, 8));
    bytes::lemma_field(encoded, 16, 8, extent.block_count as nat);
    assert(encoded.subrange(24, 28) =~= bytes::le_bytes(extent.extent_flags as nat, 4));
    bytes::lemma_field(encoded, 24, 4, extent.extent_flags as nat);
    assert(encoded.subrange(28, 32) =~= bytes::le_bytes(extent.reserved as nat, 4));
    bytes::lemma_field(encoded, 28, 4, extent.reserved as nat);
}

/// Reading back an encoded free extent gives the extent.
pub proof fn law_free_extent_round_trip(extent: BafsFreeExtent)
    ensures
        free_extent_bytes(extent).len() == 16,
        free_extent_from(free_extent_bytes(extent)) == extent,
{
    bytes::lemma_byte_capacities();
    let encoded = free_extent_bytes(extent);
    assert(encoded.subrange(0, 8) =~= bytes::le_bytes(extent.block_address as nat, 8));
    bytes::lemma_field(encoded, 0, 8, extent.block_address as nat);
    assert(encoded.subrange(8, 16) =~= bytes::le_bytes(extent.block_count as nat, 8));
    bytes::lemma_field(encoded, 8, 8, extent.block_count as nat);
}

fn extent_data_to_vec(extent: &BafsExtentData) -> (output: Vec<u8>)
    ensures
        output@ == extent_bytes(*extent),
        output@.len() == 32,
{
    let mut output: Vec<u8> = Vec::new();
    bytes::append_le(&mut output, extent.logical_byte_offset, 8);
    bytes::append_le(&mut output, extent.first_disk_block, 8);
    bytes::append_le(&mut output, extent.block_count, 8);
    bytes::append_le(&mut output, extent.extent_flags as u64, 4);
    bytes::append_le(&mut output, extent.reserved as u64, 4);
    assert(output@ =~= extent_bytes(*extent));
    output
}

/// The encoding of a file extent.
pub fn serialise_extent_data_to_bytes(extent: &BafsExtentData) -> (output: [u8; 32])
    ensures
        output@ == extent_bytes(*extent),
{
    let output = extent_data_to_vec(extent);
    assert(output@.take(32) =~= output@);
    bytes::to_array(output.as_slice())
}

/// The file extent that is encoded in the first 32 bytes of `source`.
pub fn deserialise_extent_data_from_bytes(source: &[u8]) -> (extent: BafsExtentData)
    requires
        source@.len() >= 32,
    ensures
        extent == extent_from(source@),
{
    proof {
        bytes::lemma_byte_capacities();
    }
    BafsExtentData {
        logical_byte_offset: bytes::read_le(source, 0, 8),
        first_disk_block: bytes::read_le(source, 8, 8),
        block_count: bytes::read_le(source, 16, 8),
        extent_flags: bytes::read_le(source, 24, 4) as u32,
        reserved: bytes::read_le(source, 28, 4) as u32,
    }
}

fn free_extent_to_vec(extent: &BafsFreeExtent) -> (output: Vec<u8>)
    ensures
        output@ == free_extent_bytes(*extent),
        output@.len() == 16,
{
    let mut output: Vec<u8> = Vec::new();
    bytes::append_le(&mut output, extent.block_address, 8);
    bytes::append_le(&mut output, extent.block_count, 8);
    assert(output@ =~= free_extent_bytes(*extent));
    output
}

/// The free extent that is encoded in the first 16 bytes of `source`.
pub fn deserialise_free_extent_from_bytes(source: &[u8]) -> (extent: BafsFreeExtent)
    requires
        source@.len() >= 16,
    ensures
        extent == free_extent_from(source@),
{
    proof {
        bytes::lemma_byte_capacities();
    }
    BafsFreeExtent {
        block_address: bytes::read_le(source, 0, 8),
        block_count: bytes::read_le(source, 8, 8),
    }
}

/// The key of a file extent.
pub open spec fn extent_key(inode_number: u64, offset: u64) -> BafsKey {
    BafsKey { object_id: inode_number, item_type: ITEM_TYPE_EXTENT_DATA, offset }
}

/// The key of a free extent.
pub open spec fn free_key(block_address: u64) -> BafsKey {
    BafsKey {
        object_id: BAFS_FREE_EXTENT_OBJECT_ID,
        item_type: ITEM_TYPE_EXTENT_DATA,
        offset: block_address,
    }
}

/// Store a file extent. Returns the address of the inode tree's new root.
pub fn write_extent_data_to_inode_tree<D: BlockDevice>(
    device: &D,
    dirty_cache: &mut BTreeMap<u64, Vec<u8>>,
    inode_tree_root_block: u64,
    inode_number: u64,
    extent: &BafsExtentData,
    generation: u64,
    next_free_block: &mut u64,
    freed_blocks: &mut Vec<u64>,
) -> (result: Result<u64, BafsError>)
    requires
        store::cache_valid(old(dirty_cache)@),
        *old(next_free_block) + 512 <= u64::MAX,
    ensures
        store::stamped(
            final(dirty_cache)@,
            *old(next_free_block) as int,
            *final(next_free_block) as int,
            generation,
        ),
        tree::insertion_outcome(
            device.contents(),
            old(dirty_cache)@,
            final(dirty_cache)@,
            device.reliable(),
            inode_tree_root_block,
            extent_key(inode_number, extent.logical_byte_offset),
            extent_bytes(*extent),
            *old(next_free_block),
            *final(next_free_block),
            old(freed_blocks)@,
            final(freed_blocks)@,
            result,
        ),
{
    let key = BafsKey::new(inode_number, ITEM_TYPE_EXTENT_DATA, extent.logical_byte_offset);
    let value = extent_data_to_vec(extent);
    tree::insert_into_tree(
        device,
        dirty_cache,
        inode_tree_root_block,
        key,
        value,
        generation,
        next_free_block,
        freed_blocks,
    )
}

/// Whether the extent covers the byte at `offset` of its file.
pub open spec fn covers(extent: BafsExtentData, offset: u64) -> bool {
    extent.logical_byte_offset <= offset < extent.logical_byte_offset + extent.block_count * 4096
}

/// The first extent, from `index` on, that covers `offset`.
pub open spec fn first_covering(items: Seq<LeafEntry>, offset: u64, index: int) -> Result<
    Option<BafsExtentData>,
    BafsError,
>
    decreases items.len() - index,
{
    if index >= items.len() {
        Ok(None)
    } else if items[index].value.len() < 32 {
        Err(BafsError::CorruptedStructure)
    } else if covers(extent_from(items[index].value), offset) {
        Ok(Some(extent_from(items[index].value)))
    } else {
        first_covering(items, offset, index + 1)
    }
}

/// The extent of a file that covers `offset`.
pub open spec fn extent_for_offset(
    blocks: Map<u64, Seq<u8>>,
    root: u64,
    inode_number: u64,
    offset: u64,
) -> Result<Option<BafsExtentData>, BafsError> {
    match model::tree_range(
        blocks,
        root,
        extent_key(inode_number, 0),
        extent_key(inode_number, u64::MAX),
    ) {
        Err(error) => Err(error),
        Ok(items) => first_covering(items, offset, 0),
    }
}

proof fn lemma_first_covering_covers(items: Seq<LeafEntry>, offset: u64, index: int)
    ensures
        first_covering(items, offset, index) matches Ok(Some(extent)) ==> covers(extent, offset),
    decreases items.len() - index,
{
    if index < items.len() {
        lemma_first_covering_covers(items, offset, index + 1);
    }
}

/// The extent that is found for an offset covers it.
pub proof fn lemma_found_extent_covers(
    blocks: Map<u64, Seq<u8>>,
    root: u64,
    inode_number: u64,
    offset: u64,
)
    ensures
        extent_for_offset(blocks, root, inode_number, offset) matches Ok(Some(extent)) ==> covers(
            extent,
            offset,
        ),
{
    if let Ok(items) = model::tree_range(
        blocks,
        root,
        extent_key(inode_number, 0),
        extent_key(inode_number, u64::MAX),
    ) {
        lemma_first_covering_covers(items, offset, 0);
    }
}


/// The extent of a file that begins at `start` covers `offset`.
pub open spec fn covering(
    items: Map<BafsKey, Seq<u8>>,
    inode_number: u64,
    start: u64,
    offset: u64,
) -> bool {
    &&& items.contains_key(extent_key(inode_number, start))
    &&& covers(extent_from(items[extent_key(inode_number, start)]), offset)
}

/// All extent records of a file are long enough to hold an extent.
pub open spec fn extent_records_ok(items: Map<BafsKey, Seq<u8>>, inode_number: u64) -> bool {
    forall|start: u64| #[trigger]
        items.contains_key(extent_key(inode_number, start)) ==> items[extent_key(
            inode_number,
            start,
        )].len() >= 32
}

proof fn lemma_first_covering(items: Seq<LeafEntry>, offset: u64, index: int)
    requires
        0 <= index,
        forall|i: int| 0 <= i < items.len() ==> (#[trigger] items[i]).value.len() >= 32,
    ensures
        match first_covering(items, offset, index) {
            Err(_) => false,
            Ok(None) => forall|i: int|
                index <= i < items.len() ==> !covers(
                    extent_from((#[trigger] items[i]).value),
                    offset,
                ),
            Ok(Some(extent)) => exists|i: int|
                index <= i < items.len() && extent_from((#[trigger] items[i]).value) == extent
                    && covers(extent, offset) && forall|j: int|
                    index <= j < i ==> !covers(extent_from((#[trigger] items[j]).value), offset),
        },
    decreases items.len() - index,
{
    if index < items.len() {
        if covers(extent_from(items[index].value), offset) {
            assert(extent_from(items[index].value) == extent_from(items[index].value));
        } else {
            lemma_first_covering(items, offset, index + 1);
            if let Ok(Some(extent)) = first_covering(items, offset, index + 1) {
                let i = choose|i: int|
                    index + 1 <= i < items.len() && extent_from((#[trigger] items[i]).value)
                        == extent && covers(extent, offset) && forall|j: int|
                        index + 1 <= j < i ==> !covers(
                            extent_from((#[trigger] items[j]).value),
                            offset,
                        );
                assert(extent_from(items[i].value) == extent);
            }
        }
    }
}

/// The extent items of a file, as a scan lists them.
pub proof fn lemma_extent_items(blocks: Map<u64, Seq<u8>>, root: u64, inode_number: u64)
    requires
        model::tree_sound(blocks, root),
        extent_records_ok(model::tree_map(blocks, root), inode_number),
    ensures
        ({
            let items = model::tree_map(blocks, root);
            let found = model::tree_range(
                blocks,
                root,
                extent_key(inode_number, 0),
                extent_key(inode_number, u64::MAX),
            );
            &&& found is Ok
            &&& forall|i: int|
                0 <= i < found->Ok_0.len() ==> {
                    let key = (#[trigger] found->Ok_0[i]).key;
                    &&& key == extent_key(inode_number, key.offset)
                    &&& items.contains_key(key)
                    &&& items[key] == found->Ok_0[i].value
                    &&& items[key].len() >= 32
                }
            &&& forall|i: int, j: int|
                0 <= i < j < found->Ok_0.len() ==> (#[trigger] found->Ok_0[i]).key.offset < (
                #[trigger] found->Ok_0[j]).key.offset
            &&& forall|start: u64| #[trigger]
                items.contains_key(extent_key(inode_number, start)) ==> exists|i: int|
                    0 <= i < found->Ok_0.len() && (#[trigger] found->Ok_0[i]).key == extent_key(
                        inode_number,
                        start,
                    )
        }),
{
    let items = model::tree_map(blocks, root);
    let low = extent_key(inode_number, 0);
    let high = extent_key(inode_number, u64::MAX);
    model::lemma_range_matches_map(blocks, root, low, high);
    let found = model::tree_range(blocks, root, low, high)->Ok_0;
    assert forall|i: int| 0 <= i < found.len() implies {
        let key = (#[trigger] found[i]).key;
        &&& key == extent_key(inode_number, key.offset)
        &&& items.contains_key(key)
        &&& items[key] == found[i].value
        &&& items[key].len() >= 32
    } by {
        let key = found[i].key;
        assert(items.contains_key(key));
        key::law_keys_are_ordered_lexicographically(key, low);
        key::law_keys_are_ordered_lexicographically(high, key);
        assert(key == extent_key(inode_number, key.offset));
    }
    let ranks = model::leaf_ranks(found);
    assert forall|i: int, j: int| 0 <= i < j < found.len() implies (#[trigger] found[i]).key.offset < (
    #[trigger] found[j]).key.offset by {
        assert(ranks[i] < ranks[j]);
        key::law_keys_are_ordered_lexicographically(found[i].key, found[j].key);
        assert(found[i].key == extent_key(inode_number, found[i].key.offset));
        assert(found[j].key == extent_key(inode_number, found[j].key.offset));
    }
    assert forall|start: u64| #[trigger]
        items.contains_key(extent_key(inode_number, start)) implies exists|i: int|
        0 <= i < found.len() && (#[trigger] found[i]).key == extent_key(inode_number, start) by {
        let key = extent_key(inode_number, start);
        key::law_keys_are_ordered_lexicographically(key, low);
        key::law_keys_are_ordered_lexicographically(high, key);
    }
}

/// Of all extents of a file that cover an offset, the one that begins first is
/// found.
pub proof fn lemma_extent_found(
    blocks: Map<u64, Seq<u8>>,
    root: u64,
    inode_number: u64,
    start: u64,
    offset: u64,
)
    requires
        model::tree_sound(blocks, root),
        extent_records_ok(model::tree_map(blocks, root), inode_number),
        covering(model::tree_map(blocks, root), inode_number, start, offset),
        forall|other: u64|
            other < start ==> !#[trigger] covering(
                model::tree_map(blocks, root),
                inode_number,
                other,
                offset,
            ),
    ensures
        extent_for_offset(blocks, root, inode_number, offset) == Ok::<
            Option<BafsExtentData>,
            BafsError,
        >(Some(extent_from(model::tree_map(blocks, root)[extent_key(inode_number, start)]))),
{
    let items = model::tree_map(blocks, root);
    lemma_extent_items(blocks, root, inode_number);
    let found = model::tree_range(
        blocks,
        root,
        extent_key(inode_number, 0),
        extent_key(inode_number, u64::MAX),
    )->Ok_0;
    lemma_first_covering(found, offset, 0);
    assert(items.contains_key(extent_key(inode_number, start)));
    let at = choose|i: int|
        0 <= i < found.len() && (#[trigger] found[i]).key == extent_key(inode_number, start);
    assert(covers(extent_from(found[at].value), offset));
    if let Ok(Some(extent)) = first_covering(found, offset, 0) {
        let i = choose|i: int|
            0 <= i < found.len() && extent_from((#[trigger] found[i]).value) == extent && covers(
                extent,
                offset,
            ) && forall|j: int|
                0 <= j < i ==> !covers(extent_from((#[trigger] found[j]).value), offset);
        if i < at {
            assert(found[i].key.offset < found[at].key.offset);
            assert(covering(items, inode_number, found[i].key.offset, offset));
        }
        assert(i == at);
    }
}

/// The extent that is found for an offset is one of the file's.
pub proof fn lemma_found_extent_is_recorded(
    blocks: Map<u64, Seq<u8>>,
    root: u64,
    inode_number: u64,
    offset: u64,
)
    requires
        model::tree_sound(blocks, root),
        extent_records_ok(model::tree_map(blocks, root), inode_number),
    ensures
        match extent_for_offset(blocks, root, inode_number, offset) {
            Ok(Some(extent)) => exists|start: u64| #[trigger]
                covering(model::tree_map(blocks, root), inode_number, start, offset) && extent
                    == extent_from(
                    model::tree_map(blocks, root)[extent_key(inode_number, start)],
                ),
            Ok(None) => true,
            Err(_) => false,
        },
{
    let items = model::tree_map(blocks, root);
    lemma_extent_items(blocks, root, inode_number);
    let found = model::tree_range(
        blocks,
        root,
        extent_key(inode_number, 0),
        extent_key(inode_number, u64::MAX),
    )->Ok_0;
    lemma_first_covering(found, offset, 0);
    if let Ok(Some(extent)) = first_covering(found, offset, 0) {
        let i = choose|i: int|
            0 <= i < found.len() && extent_from((#[trigger] found[i]).value) == extent && covers(
                extent,
                offset,
            ) && forall|j: int|
                0 <= j < i ==> !covers(extent_from((#[trigger] found[j]).value), offset);
        assert(covering(items, inode_number, found[i].key.offset, offset));
    }
}

/// Find the extent of a file that covers `file_byte_offset`, if there is one.
pub fn read_extent_data_for_file_offset<D: BlockDevice>(
    device: &D,
    dirty_cache: &BTreeMap<u64, Vec<u8>>,
    inode_tree_root_block: u64,
    inode_number: u64,
    file_byte_offset: u64,
) -> (result: Result<Option<BafsExtentData>, BafsError>)
    requires
        store::cache_valid(dirty_cache@),
    ensures
        result == extent_for_offset(
            store::visible_blocks(device.contents(), dirty_cache@),
            inode_tree_root_block,
            inode_number,
            file_byte_offset,
        ) || result == Err::<Option<BafsExtentData>, BafsError>(BafsError::InputOutputError)
            && !device.reliable(),
{
    let min_key = BafsKey::new(inode_number, ITEM_TYPE_EXTENT_DATA, 0);
    let max_key = BafsKey::new(inode_number, ITEM_TYPE_EXTENT_DATA, u64::MAX);
    let items = match tree::iterate_tree_range(
        device,
        dirty_cache,
        inode_tree_root_block,
        min_key,
        max_key,
    ) {
        Ok(items) => items,
        Err(error) => {
            return Err(error);
        },
    };
    let ghost entries = node::leaf_entries(items@);
    let mut index: usize = 0;
    while index < items.len()
        invariant
            index <= items@.len(),
            entries == node::leaf_entries(items@),
            first_covering(entries, file_byte_offset, 0) == first_covering(
                entries,
                file_byte_offset,
                index as int,
            ),
            extent_for_offset(
                store::visible_blocks(device.contents(), dirty_cache@),
                inode_tree_root_block,
                inode_number,
                file_byte_offset,
            ) == first_covering(entries, file_byte_offset, 0),
        decreases items@.len() - index,
    {
        assert(entries[index as int] == items@[index as int]@);
        if items[index].value.len() < 32 {
            return Err(BafsError::CorruptedStructure);
        }
        let extent = deserialise_extent_data_from_bytes(items[index].value.as_slice());
        if file_byte_offset >= extent.logical_byte_offset && (file_byte_offset
            - extent.logical_byte_offset) / 4096 < extent.block_count {
            return Ok(Some(extent));
        }
        index = index + 1;
    }
    Ok(None)
}

/// Record a free extent. Returns the address of the free-extent tree's new root.
pub fn insert_free_extent_into_tree<D: BlockDevice>(
    device: &D,
    dirty_cache: &mut BTreeMap<u64, Vec<u8>>,
    free_extent_tree_root_block: u64,
    block_address: u64,
    block_count: u64,
    generation: u64,
    next_free_block: &mut u64,
    freed_blocks: &mut Vec<u64>,
) -> (result: Result<u64, BafsError>)
    requires
        store::cache_valid(old(dirty_cache)@),
        *old(next_free_block) + 512 <= u64::MAX,
    ensures
        store::stamped(
            final(dirty_cache)@,
            *old(next_free_block) as int,
            *final(next_free_block) as int,
            generation,
        ),
        tree::insertion_outcome(
            device.contents(),
            old(dirty_cache)@,
            final(dirty_cache)@,
            device.reliable(),
            free_extent_tree_root_block,
            free_key(block_address),
            free_extent_bytes((BafsFreeExtent { block_address, block_count })),
            *old(next_free_block),
            *final(next_free_block),
            old(freed_blocks)@,
            final(freed_blocks)@,
            result,
        ),
{
    let free_extent = BafsFreeExtent { block_address, block_count };
    let key = BafsKey::new(BAFS_FREE_EXTENT_OBJECT_ID, ITEM_TYPE_EXTENT_DATA, block_address);
    let value = free_extent_to_vec(&free_extent);
    tree::insert_into_tree(
        device,
        dirty_cache,
        free_extent_tree_root_block,
        key,
        value,
        generation,
        next_free_block,
        freed_blocks,
    )
}

/// Take a free extent out of the tree. Returns the address of the tree's new root.
fn remove_free_extent_from_tree<D: BlockDevice>(
    device: &D,
    dirty_cache: &mut BTreeMap<u64, Vec<u8>>,
    free_extent_tree_root_block: u64,
    key: BafsKey,
    generation: u64,
    next_free_block: &mut u64,
    freed_blocks: &mut Vec<u64>,
) -> (result: Result<u64, BafsError>)
    requires
        store::cache_valid(old(dirty_cache)@),
        *old(next_free_block) + 512 <= u64::MAX,
    ensures
        store::stamped(
            final(dirty_cache)@,
            *old(next_free_block) as int,
            *final(next_free_block) as int,
            generation,
        ),
        tree::deletion_outcome(
            device.contents(),
            old(dirty_cache)@,
            final(dirty_cache)@,
            device.reliable(),
            free_extent_tree_root_block,
            key,
            *old(next_free_block),
            *final(next_free_block),
            old(freed_blocks)@,
            final(freed_blocks)@,
            result,
        ),
{
    tree::delete_from_tree(
        device,
        dirty_cache,
        free_extent_tree_root_block,
        key,
        generation,
        next_free_block,
        freed_blocks,
    )
}

/// The free extent under a key.
pub open spec fn run_at(items: Map<BafsKey, Seq<u8>>, key: BafsKey) -> BafsFreeExtent {
    free_extent_from(items[key])
}

/// The items describe free extents that do not overlap.
pub open spec fn free_map_ok(items: Map<BafsKey, Seq<u8>>) -> bool {
    &&& forall|key: BafsKey| #[trigger]
        items.contains_key(key) ==> {
            &&& key == free_key(key.offset)
            &&& items[key].len() == 16
            &&& run_at(items, key).block_address == key.offset
            &&& run_at(items, key).block_count > 0
            &&& key.offset + run_at(items, key).block_count <= u64::MAX
        }
    &&& forall|left: BafsKey, right: BafsKey| #[trigger]
        items.contains_key(left) && #[trigger] items.contains_key(right) && left.offset
            < right.offset ==> left.offset + run_at(items, left).block_count <= right.offset
}

/// Whether the block at `address` is free.
pub open spec fn is_free(items: Map<BafsKey, Seq<u8>>, address: u64) -> bool {
    exists|key: BafsKey|
        #![trigger items.contains_key(key)]
        items.contains_key(key) && key.offset <= address < key.offset + run_at(
            items,
            key,
        ).block_count
}

/// The first free extent, from `index` on, with at least `requested` blocks.
pub open spec fn first_fit(items: Seq<LeafEntry>, requested: u64, index: int) -> Result<
    Option<LeafEntry>,
    BafsError,
>
    decreases items.len() - index,
{
    if index >= items.len() {
        Ok(None)
    } else if items[index].value.len() < 16 {
        Err(BafsError::CorruptedStructure)
    } else if free_extent_from(items[index].value).block_count >= requested {
        Ok(Some(items[index]))
    } else {
        first_fit(items, requested, index + 1)
    }
}

/// The items of the free-extent tree.
pub open spec fn free_items(blocks: Map<u64, Seq<u8>>, root: u64) -> Result<
    Seq<LeafEntry>,
    BafsError,
> {
    model::tree_range(blocks, root, free_key(0), free_key(u64::MAX))
}

/// The item from which an allocation takes its blocks, or why it fails.
pub open spec fn allocation_choice(
    blocks: Map<u64, Seq<u8>>,
    root: u64,
    requested: u64,
) -> Result<LeafEntry, BafsError> {
    match free_items(blocks, root) {
        Err(error) => Err(error),
        Ok(items) => match first_fit(items, requested, 0) {
            Err(error) => Err(error),
            Ok(None) => Err(BafsError::OutOfSpace),
            Ok(Some(item)) => {
                let extent = free_extent_from(item.value);
                if extent.block_count > requested && extent.block_address + requested > u64::MAX {
                    Err(BafsError::CorruptedStructure)
                } else {
                    Ok(item)
                }
            },
        },
    }
}

/// The free extents once `requested` blocks were taken from the start of `item`.
pub open spec fn allocated_map(
    items: Map<BafsKey, Seq<u8>>,
    item: LeafEntry,
    requested: u64,
) -> Map<BafsKey, Seq<u8>> {
    let extent = free_extent_from(item.value);
    let rest = items.remove(item.key);
    if extent.block_count > requested {
        let start = (extent.block_address + requested) as u64;
        rest.insert(
            free_key(start),
            free_extent_bytes(
                BafsFreeExtent {
                    block_address: start,
                    block_count: (extent.block_count - requested) as u64,
                },
            ),
        )
    } else {
        rest
    }
}

proof fn lemma_first_fit(items: Seq<LeafEntry>, requested: u64, index: int)
    requires
        0 <= index,
        forall|i: int| 0 <= i < items.len() ==> (#[trigger] items[i]).value.len() >= 16,
    ensures
        match first_fit(items, requested, index) {
            Err(_) => false,
            Ok(None) => forall|i: int|
                index <= i < items.len() ==> free_extent_from((#[trigger] items[i]).value).block_count
                    < requested,
            Ok(Some(item)) => exists|i: int|
                index <= i < items.len() && #[trigger] items[i] == item && free_extent_from(
                    item.value,
                ).block_count >= requested && forall|j: int|
                    index <= j < i ==> free_extent_from((#[trigger] items[j]).value).block_count
                        < requested,
        },
    decreases items.len() - index,
{
    if index < items.len() {
        assert(items[index].value.len() >= 16);
        if free_extent_from(items[index].value).block_count < requested {
            lemma_first_fit(items, requested, index + 1);
            if let Ok(Some(item)) = first_fit(items, requested, index + 1) {
                let i = choose|i: int|
                    index + 1 <= i < items.len() && #[trigger] items[i] == item && free_extent_from(
                        item.value,
                    ).block_count >= requested && forall|j: int|
                        index + 1 <= j < i ==> free_extent_from(
                            (#[trigger] items[j]).value,
                        ).block_count < requested;
                assert(items[i] == item);
            }
        } else {
            assert(items[index] == items[index]);
        }
    }
}

/// Allocation is first-fit: it takes the free extent with the lowest address
/// among those that are large enough, and fails for want of space only where
/// there is none.
pub proof fn law_allocation_is_first_fit(blocks: Map<u64, Seq<u8>>, root: u64, requested: u64)
    requires
        model::tree_sound(blocks, root),
        free_map_ok(model::tree_map(blocks, root)),
    ensures
        ({
            let items = model::tree_map(blocks, root);
            match allocation_choice(blocks, root, requested) {
                Ok(item) => {
                    &&& items.contains_key(item.key)
                    &&& items[item.key] == item.value
                    &&& run_at(items, item.key).block_count >= requested
                    &&& forall|other: BafsKey| #[trigger]
                        items.contains_key(other) && other.offset < item.key.offset ==> run_at(
                            items,
                            other,
                        ).block_count < requested
                },
                Err(error) => {
                    &&& error == BafsError::OutOfSpace
                    &&& forall|other: BafsKey| #[trigger]
                        items.contains_key(other) ==> run_at(items, other).block_count < requested
                },
            }
        }),
{
    let items = model::tree_map(blocks, root);
    model::lemma_range_matches_map(blocks, root, free_key(0), free_key(u64::MAX));
    let found = free_items(blocks, root)->Ok_0;
    assert forall|i: int| 0 <= i < found.len() implies (#[trigger] found[i]).value.len() >= 16 by {
        assert(items.contains_key(found[i].key));
    }
    lemma_first_fit(found, requested, 0);
    assert forall|other: BafsKey| #[trigger] items.contains_key(other) implies free_key(0).rank()
        <= other.rank() <= free_key(u64::MAX).rank() by {
        key::law_keys_are_ordered_lexicographically(free_key(0), other);
        key::law_keys_are_ordered_lexicographically(other, free_key(u64::MAX));
        key::law_keys_are_ordered_lexicographically(other, free_key(0));
        key::law_keys_are_ordered_lexicographically(free_key(u64::MAX), other);
    }
    match first_fit(found, requested, 0) {
        Err(_) => {},
        Ok(None) => {
            assert forall|other: BafsKey| #[trigger] items.contains_key(other) implies run_at(
                items,
                other,
            ).block_count < requested by {
                let i = choose|i: int|
                    0 <= i < found.len() && (#[trigger] found[i]).key == other;
                assert(items[found[i].key] == found[i].value);
            }
        },
        Ok(Some(item)) => {
            let at = choose|i: int|
                0 <= i < found.len() && #[trigger] found[i] == item && free_extent_from(
                    item.value,
                ).block_count >= requested && forall|j: int|
                    0 <= j < i ==> free_extent_from((#[trigger] found[j]).value).block_count
                        < requested;
            assert(items.contains_key(found[at].key));
            assert forall|other: BafsKey| #[trigger]
                items.contains_key(other) && other.offset < item.key.offset implies run_at(
                items,
                other,
            ).block_count < requested by {
                let i = choose|i: int|
                    0 <= i < found.len() && (#[trigger] found[i]).key == other;
                key::law_keys_are_ordered_lexicographically(other, item.key);
                assert(model::leaf_ranks(found)[i] == other.rank());
                assert(model::leaf_ranks(found)[at] == item.key.rank());
                assert(i < at) by {
                    if i > at {
                        assert(model::leaf_ranks(found)[at] < model::leaf_ranks(found)[i]);
                    }
                }
                assert(items[found[i].key] == found[i].value);
            }
        },
    }
}

/// Allocated blocks were free and are free no longer; all others stay as they
/// were.
pub proof fn law_allocation_takes_free_blocks(
    items: Map<BafsKey, Seq<u8>>,
    item: LeafEntry,
    requested: u64,
)
    requires
        free_map_ok(items),
        items.contains_key(item.key),
        items[item.key] == item.value,
        0 < requested <= free_extent_from(item.value).block_count,
    ensures
        free_map_ok(allocated_map(items, item, requested)),
        forall|address: u64|
            item.key.offset <= address < item.key.offset + requested ==> #[trigger] is_free(
                items,
                address,
            ),
        forall|address: u64| #[trigger]
            is_free(allocated_map(items, item, requested), address) <==> is_free(items, address)
                && !(item.key.offset <= address < item.key.offset + requested),
{
    let after = allocated_map(items, item, requested);
    let extent = free_extent_from(item.value);
    let start = (extent.block_address + requested) as u64;
    let rest = BafsFreeExtent {
        block_address: start,
        block_count: (extent.block_count - requested) as u64,
    };
    law_free_extent_round_trip(rest);
    assert(items.contains_key(item.key));
    assert(item.key.offset == extent.block_address);
    if extent.block_count > requested {
        assert(start == extent.block_address + requested);
        assert(!items.remove(item.key).contains_key(free_key(start))) by {
            if items.contains_key(free_key(start)) {
                assert(items.contains_key(item.key));
            }
        }
        assert(after.contains_key(free_key(start)));
        assert(run_at(after, free_key(start)) == rest);
    }
    assert forall|key: BafsKey| #[trigger] after.contains_key(key) implies {
        &&& key == free_key(key.offset)
        &&& after[key].len() == 16
        &&& run_at(after, key).block_address == key.offset
        &&& run_at(after, key).block_count > 0
        &&& key.offset + run_at(after, key).block_count <= u64::MAX
    } by {
        if extent.block_count > requested && key == free_key(start) {
        } else {
            assert(items.contains_key(key));
            assert(after[key] == items[key]);
        }
    }
    assert forall|left: BafsKey, right: BafsKey| #[trigger]
        after.contains_key(left) && #[trigger] after.contains_key(right) && left.offset
            < right.offset implies left.offset + run_at(after, left).block_count
        <= right.offset by {
        assert(items.contains_key(item.key));
        if extent.block_count > requested && left == free_key(start) {
            assert(items.contains_key(right));
            assert(right != item.key);
        } else if extent.block_count > requested && right == free_key(start) {
            assert(items.contains_key(left));
            assert(left != item.key);
            if left.offset > item.key.offset {
                assert(item.key.offset + extent.block_count <= left.offset);
            }
        } else {
            assert(items.contains_key(left) && items.contains_key(right));
        }
    }
    assert forall|address: u64|
        item.key.offset <= address < item.key.offset + requested implies #[trigger] is_free(
        items,
        address,
    ) by {
        assert(items.contains_key(item.key));
    }
    assert forall|address: u64| #[trigger]
        is_free(after, address) <==> is_free(items, address) && !(item.key.offset <= address
            < item.key.offset + requested) by {
        if is_free(after, address) {
            let key = choose|key: BafsKey|
                #![trigger after.contains_key(key)]
                after.contains_key(key) && key.offset <= address < key.offset + run_at(
                    after,
                    key,
                ).block_count;
            if extent.block_count > requested && key == free_key(start) {
                assert(items.contains_key(item.key));
            } else {
                assert(items.contains_key(key) && items.contains_key(item.key));
                assert(key != item.key);
                if key.offset == item.key.offset {
                    assert(key == item.key);
                }
            }
        }
        if is_free(items, address) && !(item.key.offset <= address < item.key.offset + requested) {
            let key = choose|key: BafsKey|
                #![trigger items.contains_key(key)]
                items.contains_key(key) && key.offset <= address < key.offset + run_at(
                    items,
                    key,
                ).block_count;
            if key == item.key {
                assert(after.contains_key(free_key(start)));
            } else {
                assert(after.contains_key(key));
                if extent.block_count > requested {
                    assert(key != free_key(start));
                }
                assert(after[key] == items[key]);
            }
        }
    }
}

/// The root after blocks were to be taken from the tree at `root`.
pub open spec fn allocation_root(root: u64, result: Result<(u64, u64), BafsError>) -> u64 {
    match result {
        Ok((_, new_root)) => new_root,
        Err(_) => root,
    }
}

/// Taking blocks from the free extent `item` leads from one stage to another: the
/// extent is deleted, and what is left of it is put back.
pub open spec fn allocation_steps(
    disk: Seq<u8>,
    reliable: bool,
    start: TreeStage,
    middle: TreeStage,
    end: TreeStage,
    item: LeafEntry,
    requested: u64,
    result: Result<(u64, u64), BafsError>,
) -> bool {
    let extent = free_extent_from(item.value);
    let rest = BafsFreeExtent {
        block_address: (extent.block_address + requested) as u64,
        block_count: (extent.block_count - requested) as u64,
    };
    match result {
        Ok((address, new_root)) => {
            &&& address == extent.block_address
            &&& end.root == new_root
            &&& tree::deleted(disk, reliable, start, middle, item.key, Ok(middle.root))
            &&& if rest.block_count == 0 {
                end == middle
            } else {
                tree::inserted(
                    disk,
                    reliable,
                    middle,
                    end,
                    free_key(rest.block_address),
                    free_extent_bytes(rest),
                    Ok(new_root),
                )
            }
        },
        Err(error) => {
            ||| error == BafsError::InputOutputError && !reliable && end == start
            ||| tree::deleted(disk, reliable, start, end, item.key, Err(error))
            ||| rest.block_count > 0 && tree::deleted(
                disk,
                reliable,
                start,
                middle,
                item.key,
                Ok(middle.root),
            ) && tree::inserted(
                disk,
                reliable,
                middle,
                end,
                free_key(rest.block_address),
                free_extent_bytes(rest),
                Err(error),
            )
        },
    }
}

/// The outcome of an allocation.
pub open spec fn allocation_outcome(
    disk: Seq<u8>,
    old_cache: Map<u64, Vec<u8>>,
    new_cache: Map<u64, Vec<u8>>,
    reliable: bool,
    root: u64,
    requested: u64,
    old_next: u64,
    new_next: u64,
    old_freed: Seq<u64>,
    new_freed: Seq<u64>,
    result: Result<(u64, u64), BafsError>,
) -> bool {
    let before = store::visible_blocks(disk, old_cache);
    let after = store::visible_blocks(disk, new_cache);
    let choice = allocation_choice(before, root, requested);
    &&& store::cache_valid(new_cache)
    &&& store::cow_frame(old_cache, new_cache, old_next as int, new_next as int)
    &&& old_next <= new_next <= old_next + 3 * tree::root_level(before, root) + 4
    &&& tree::extends(old_freed, new_freed)
    &&& match choice {
        Err(error) => {
            &&& result == Err::<(u64, u64), BafsError>(error) || result == Err::<
                (u64, u64),
                BafsError,
            >(BafsError::InputOutputError) && !reliable
            &&& new_cache == old_cache
            &&& new_next == old_next
            &&& new_freed == old_freed
        },
        Ok(item) => {
            let start = TreeStage { cache: old_cache, next: old_next, freed: old_freed, root };
            let end = TreeStage {
                cache: new_cache,
                next: new_next,
                freed: new_freed,
                root: allocation_root(root, result),
            };
            &&& exists|middle: TreeStage| #[trigger]
                allocation_steps(disk, reliable, start, middle, end, item, requested, result)
            &&& result matches Ok((_, new_root)) ==> {
                &&& model::checked_node(after, new_root, model::root_span()) is Ok
                &&& tree::root_level(after, new_root) <= tree::root_level(before, root) + 1
                &&& fanout::gains(
                    before,
                    root,
                    after,
                    new_root,
                    old_next as int,
                    new_next as int,
                    1,
                )
                &&& forall|base: int| #[trigger]
                    tree::tree_ready(before, root, base, old_next as int) ==> {
                        &&& tree::tree_ready(after, new_root, base, new_next as int)
                        &&& model::tree_map(after, new_root) == allocated_map(
                            model::tree_map(before, root),
                            item,
                            requested,
                        )
                    }
            }
        },
    }
    &&& forall|base: int| #[trigger]
        tree::tree_ready(before, root, base, old_next as int) && choice is Ok && tree::root_level(
            before,
            root,
        ) + 1 < model::level_limit() ==> result is Ok || result == Err::<(u64, u64), BafsError>(
            BafsError::InputOutputError,
        ) && !reliable
}

fn find_first_fit(items: &Vec<BafsLeafItem>, requested_block_count: u64) -> (result: Result<
    Option<usize>,
    BafsError,
>)
    ensures
        match result {
            Err(error) => first_fit(node::leaf_entries(items@), requested_block_count, 0) == Err::<
                Option<LeafEntry>,
                BafsError,
            >(error),
            Ok(None) => first_fit(node::leaf_entries(items@), requested_block_count, 0) == Ok::<
                Option<LeafEntry>,
                BafsError,
            >(None),
            Ok(Some(index)) => {
                &&& index < items@.len()
                &&& items@[index as int].value@.len() >= 16
                &&& free_extent_from(items@[index as int].value@).block_count
                    >= requested_block_count
                &&& first_fit(node::leaf_entries(items@), requested_block_count, 0) == Ok::<
                    Option<LeafEntry>,
                    BafsError,
                >(Some(items@[index as int]@))
            },
        },
{
    let ghost entries = node::leaf_entries(items@);
    let mut index: usize = 0;
    while index < items.len()
        invariant
            index <= items@.len(),
            entries == node::leaf_entries(items@),
            first_fit(entries, requested_block_count, 0) == first_fit(
                entries,
                requested_block_count,
                index as int,
            ),
        decreases items@.len() - index,
    {
        assert(entries[index as int] == items@[index as int]@);
        if items[index].value.len() < 16 {
            return Err(BafsError::CorruptedStructure);
        }
        let extent = deserialise_free_extent_from_bytes(items[index].value.as_slice());
        if extent.block_count >= requested_block_count {
            return Ok(Some(index));
        }
        index = index + 1;
    }
    Ok(None)
}

/// Take `requested_block_count` contiguous blocks from the free extents: from
/// the first extent, in the order of addresses, that is large enough. What is
/// left of the extent stays free.
///
/// Returns the address of the first block and that of the tree's new root.
#[verifier::spinoff_prover]
#[verifier::rlimit(60)]
pub fn allocate_blocks<D: BlockDevice>(
    device: &D,
    dirty_cache: &mut BTreeMap<u64, Vec<u8>>,
    free_extent_tree_root_block: u64,
    requested_block_count: u64,
    generation: u64,
    next_free_block: &mut u64,
    freed_blocks: &mut Vec<u64>,
) -> (result: Result<(u64, u64), BafsError>)
    requires
        store::cache_valid(old(dirty_cache)@),
        *old(next_free_block) + 1024 <= u64::MAX,
    ensures
        store::stamped(
            final(dirty_cache)@,
            *old(next_free_block) as int,
            *final(next_free_block) as int,
            generation,
        ),
        allocation_outcome(
            device.contents(),
            old(dirty_cache)@,
            final(dirty_cache)@,
            device.reliable(),
            free_extent_tree_root_block,
            requested_block_count,
            *old(next_free_block),
            *final(next_free_block),
            old(freed_blocks)@,
            final(freed_blocks)@,
            result,
        ),
{
    let ghost disk = device.contents();
    let ghost old_cache = dirty_cache@;
    let ghost before = store::visible_blocks(disk, old_cache);
    let ghost root = free_extent_tree_root_block;
    let ghost old_next = *next_free_block as int;
    let ghost start = TreeStage {
        cache: old_cache,
        next: *next_free_block,
        freed: freed_blocks@,
        root,
    };
    let min_key = BafsKey::new(BAFS_FREE_EXTENT_OBJECT_ID, ITEM_TYPE_EXTENT_DATA, 0);
    let max_key = BafsKey::new(BAFS_FREE_EXTENT_OBJECT_ID, ITEM_TYPE_EXTENT_DATA, u64::MAX);
    let items = match tree::iterate_tree_range(
        device,
        dirty_cache,
        free_extent_tree_root_block,
        min_key,
        max_key,
    ) {
        Ok(items) => items,
        Err(error) => {
            proof {
                if allocation_choice(before, root, requested_block_count) is Ok {
                    let item = allocation_choice(before, root, requested_block_count)->Ok_0;
                    assert(allocation_steps(
                        disk,
                        device.reliable(),
                        start,
                        start,
                        start,
                        item,
                        requested_block_count,
                        Err(error),
                    ));
                }
            }
            return Err(error);
        },
    };
    let index: usize = match find_first_fit(&items, requested_block_count) {
        Err(error) => {
            return Err(error);
        },
        Ok(None) => {
            return Err(BafsError::OutOfSpace);
        },
        Ok(Some(index)) => index,
    };
    let ghost item = items@[index as int]@;
    let free_extent = deserialise_free_extent_from_bytes(items[index].value.as_slice());
    let address: u64 = free_extent.block_address;
    let remaining: u64 = free_extent.block_count - requested_block_count;
    if remaining > 0 && address > u64::MAX - requested_block_count {
        return Err(BafsError::CorruptedStructure);
    }
    assert(allocation_choice(before, root, requested_block_count) == Ok::<LeafEntry, BafsError>(
        item,
    ));
    proof {
        lemma_chosen_item(before, root, requested_block_count);
    }
    let shrunk_root: u64 = match remove_free_extent_from_tree(
        device,
        dirty_cache,
        free_extent_tree_root_block,
        items[index].key,
        generation,
        next_free_block,
        freed_blocks,
    ) {
        Ok(shrunk_root) => shrunk_root,
        Err(error) => {
            assert(allocation_steps(
                disk,
                device.reliable(),
                start,
                start,
                start,
                item,
                requested_block_count,
                Err(error),
            ));
            return Err(error);
        },
    };
    let ghost shrunk = TreeStage {
        cache: dirty_cache@,
        next: *next_free_block,
        freed: freed_blocks@,
        root: shrunk_root,
    };
    let ghost middle_cache = dirty_cache@;
    let ghost middle = store::visible_blocks(disk, middle_cache);
    let ghost middle_next = *next_free_block as int;
    proof {
        assert forall|base: int| #[trigger]
            tree::tree_ready(before, root, base, old_next) implies tree::tree_ready(
            middle,
            shrunk_root,
            base,
            middle_next,
        ) && model::tree_map(middle, shrunk_root) == model::tree_map(before, root).remove(
            item.key,
        ) by {
            tree::lemma_tree_stays_ready(
                disk,
                old_cache,
                middle_cache,
                root,
                shrunk_root,
                item.key,
                None,
                base,
                old_next,
                middle_next,
            );
        }
    }
    if remaining == 0 {
        proof {
            fanout::lemma_gains_more(
                before,
                root,
                middle,
                shrunk_root,
                old_next,
                middle_next,
                0,
                1,
            );
        }
        assert(allocation_steps(
            disk,
            device.reliable(),
            start,
            shrunk,
            shrunk,
            item,
            requested_block_count,
            Ok((address, shrunk_root)),
        ));
        return Ok((address, shrunk_root));
    }
    let rest_address: u64 = address + requested_block_count;
    let ghost rest = BafsFreeExtent { block_address: rest_address, block_count: remaining };
    proof {
        law_free_extent_round_trip(rest);
        assert forall|base: int| #[trigger]
            tree::tree_ready(before, root, base, old_next) && tree::root_level(before, root) + 1
                < model::level_limit() implies tree::insert_error(
            middle,
            shrunk_root,
            free_key(rest_address),
            free_extent_bytes(rest),
        ) is None by {
            tree::lemma_insert_succeeds(
                middle,
                shrunk_root,
                free_key(rest_address),
                free_extent_bytes(rest),
            );
        }
    }
    match insert_free_extent_into_tree(
        device,
        dirty_cache,
        shrunk_root,
        rest_address,
        remaining,
        generation,
        next_free_block,
        freed_blocks,
    ) {
        Err(error) => {
            assert(allocation_steps(
                disk,
                device.reliable(),
                start,
                shrunk,
                TreeStage {
                    cache: dirty_cache@,
                    next: *next_free_block,
                    freed: freed_blocks@,
                    root,
                },
                item,
                requested_block_count,
                Err(error),
            ));
            Err(error)
        },
        Ok(new_root) => {
            proof {
                store::lemma_stamped_joins(
                    middle_cache,
                    dirty_cache@,
                    old_next,
                    middle_next,
                    *next_free_block as int,
                    generation,
                );
                assert(allocation_steps(
                    disk,
                    device.reliable(),
                    start,
                    shrunk,
                    TreeStage {
                        cache: dirty_cache@,
                        next: *next_free_block,
                        freed: freed_blocks@,
                        root: new_root,
                    },
                    item,
                    requested_block_count,
                    Ok((address, new_root)),
                ));
                let after = store::visible_blocks(disk, dirty_cache@);
                let new_next = *next_free_block as int;
                fanout::lemma_gains_join(
                    before,
                    root,
                    middle,
                    shrunk_root,
                    after,
                    new_root,
                    old_next,
                    middle_next,
                    new_next,
                    0,
                    1,
                );
                store::lemma_cow_frame_joins(
                    old_cache,
                    middle_cache,
                    dirty_cache@,
                    old_next,
                    middle_next,
                    new_next,
                );
                assert forall|base: int| #[trigger]
                    tree::tree_ready(before, root, base, old_next) implies tree::tree_ready(
                    after,
                    new_root,
                    base,
                    new_next,
                ) && model::tree_map(after, new_root) == allocated_map(
                    model::tree_map(before, root),
                    item,
                    requested_block_count,
                ) by {
                    tree::lemma_tree_stays_ready(
                        disk,
                        middle_cache,
                        dirty_cache@,
                        shrunk_root,
                        new_root,
                        free_key(rest_address),
                        Some(free_extent_bytes(rest)),
                        base,
                        middle_next,
                        new_next,
                    );
                }
            }
            Ok((address, new_root))
        },
    }
}

/// In a sound tree the chosen item can be deleted.
proof fn lemma_chosen_item(blocks: Map<u64, Seq<u8>>, root: u64, requested: u64)
    requires
        allocation_choice(blocks, root, requested) is Ok,
    ensures
        model::tree_sound(blocks, root) ==> tree::delete_error(
            blocks,
            root,
            allocation_choice(blocks, root, requested)->Ok_0.key,
        ) is None,
        model::checked_node(blocks, root, model::root_span()) is Ok,
{
    if model::tree_sound(blocks, root) {
        model::lemma_range_matches_map(blocks, root, free_key(0), free_key(u64::MAX));
        let found = free_items(blocks, root)->Ok_0;
        lemma_fit_is_listed(found, requested, 0);
    }
}

proof fn lemma_fit_is_listed(items: Seq<LeafEntry>, requested: u64, index: int)
    requires
        0 <= index,
    ensures
        first_fit(items, requested, index) matches Ok(Some(item)) ==> exists|i: int|
            0 <= i < items.len() && #[trigger] items[i] == item,
    decreases items.len() - index,
{
    if index < items.len() {
        lemma_fit_is_listed(items, requested, index + 1);
        assert(items[index] == items[index]);
    }
}

/// Whether the free extent under `key` ends where `address` begins.
pub open spec fn ends_at(items: Map<BafsKey, Seq<u8>>, key: BafsKey, address: u64) -> bool {
    items.contains_key(key) && key.offset + run_at(items, key).block_count == address
}

/// Whether some free extent ends where `address` begins.
pub open spec fn has_predecessor(items: Map<BafsKey, Seq<u8>>, address: u64) -> bool {
    exists|key: BafsKey| #[trigger] ends_at(items, key, address)
}

/// The free extent that ends where `address` begins.
pub open spec fn predecessor(items: Map<BafsKey, Seq<u8>>, address: u64) -> BafsKey {
    choose|key: BafsKey| #[trigger] ends_at(items, key, address)
}

/// The free extents once the `count` blocks at `address` were returned: one
/// extent takes the place of the returned blocks and of the free extents right
/// before and right behind them.
pub open spec fn freed_map(
    items: Map<BafsKey, Seq<u8>>,
    address: u64,
    count: u64,
) -> Map<BafsKey, Seq<u8>> {
    let end = (address + count) as u64;
    let start = if has_predecessor(items, address) {
        predecessor(items, address).offset
    } else {
        address
    };
    let without_predecessor = if has_predecessor(items, address) {
        items.remove(predecessor(items, address))
    } else {
        items
    };
    let behind = if without_predecessor.contains_key(free_key(end)) {
        run_at(items, free_key(end)).block_count as int
    } else {
        0
    };
    without_predecessor.remove(free_key(end)).insert(
        free_key(start),
        free_extent_bytes(
            BafsFreeExtent { block_address: start, block_count: (end - start + behind) as u64 },
        ),
    )
}

proof fn lemma_predecessor_unique(
    items: Map<BafsKey, Seq<u8>>,
    address: u64,
    left: BafsKey,
    right: BafsKey,
)
    requires
        free_map_ok(items),
        ends_at(items, left, address),
        ends_at(items, right, address),
    ensures
        left == right,
{
    assert(items.contains_key(left) && items.contains_key(right));
    if left.offset < right.offset {
        assert(left.offset + run_at(items, left).block_count <= right.offset);
    } else if right.offset < left.offset {
        assert(right.offset + run_at(items, right).block_count <= left.offset);
    }
}

/// Returned blocks are free again, and no others are.
pub proof fn law_freeing_returns_blocks(items: Map<BafsKey, Seq<u8>>, address: u64, count: u64)
    requires
        free_map_ok(items),
        count > 0,
        address + count <= u64::MAX,
        forall|block: u64|
            address <= block < address + count ==> !#[trigger] is_free(items, block),
    ensures
        free_map_ok(freed_map(items, address, count)),
        forall|block: u64| #[trigger]
            is_free(freed_map(items, address, count), block) <==> is_free(items, block)
                || address <= block < address + count,
{
    let end = (address + count) as u64;
    let joined = has_predecessor(items, address);
    let before = predecessor(items, address);
    let start = if joined {
        before.offset
    } else {
        address
    };
    let without = if joined {
        items.remove(before)
    } else {
        items
    };
    let followed = without.contains_key(free_key(end));
    let behind = if followed {
        run_at(items, free_key(end)).block_count as int
    } else {
        0
    };
    let after = freed_map(items, address, count);
    if joined {
        assert(ends_at(items, before, address));
        assert(items.contains_key(before));
    }
    if followed {
        assert(items.contains_key(free_key(end)));
    }
    let merged = BafsFreeExtent {
        block_address: start,
        block_count: (end - start + behind) as u64,
    };
    law_free_extent_round_trip(merged);
    let top = free_key(start);
    assert(after.contains_key(top));
    assert(run_at(after, top) == merged);
    assert(merged.block_count == end - start + behind);
    assert forall|key: BafsKey|
        items.contains_key(key) && !(joined && key == before) && key != free_key(
            end,
        ) implies #[trigger] after.contains_key(key) && after[key] == items[key] && (key.offset
        + run_at(items, key).block_count <= start || end + behind <= key.offset) by {
        let size = run_at(items, key).block_count;
        if key.offset < address {
            if key.offset + size > address {
                assert(is_free(items, address));
            }
            if joined {
                if key.offset < before.offset {
                    assert(items.contains_key(before));
                } else if key.offset == before.offset {
                    assert(key == before);
                } else {
                    assert(items.contains_key(key) && items.contains_key(before));
                    assert(before.offset + run_at(items, before).block_count <= key.offset);
                }
            }
        } else {
            if key.offset < end {
                assert(is_free(items, key.offset));
            }
            if key.offset == end {
                assert(key == free_key(end));
            }
            if followed {
                assert(items.contains_key(free_key(end)) && items.contains_key(key));
            }
        }
        assert(key != top) by {
            if key == top {
                if joined {
                    assert(key == before);
                } else {
                    assert(is_free(items, address));
                }
            }
        }
    }
    assert forall|key: BafsKey| #[trigger] after.contains_key(key) && key != top implies {
        &&& items.contains_key(key)
        &&& !(joined && key == before)
        &&& key != free_key(end)
        &&& after[key] == items[key]
    } by {}
    assert forall|key: BafsKey| #[trigger] after.contains_key(key) implies {
        &&& key == free_key(key.offset)
        &&& after[key].len() == 16
        &&& run_at(after, key).block_address == key.offset
        &&& run_at(after, key).block_count > 0
        &&& key.offset + run_at(after, key).block_count <= u64::MAX
    } by {
        if key != top {
            assert(items.contains_key(key));
        }
    }
    assert forall|left: BafsKey, right: BafsKey| #[trigger]
        after.contains_key(left) && #[trigger] after.contains_key(right) && left.offset
            < right.offset implies left.offset + run_at(after, left).block_count
        <= right.offset by {
        if left != top {
            assert(items.contains_key(left));
        }
        if right != top {
            assert(items.contains_key(right));
        }
    }
    assert forall|block: u64| #[trigger]
        is_free(after, block) <==> is_free(items, block) || address <= block < address
            + count by {
        if is_free(after, block) {
            let key = choose|key: BafsKey|
                #![trigger after.contains_key(key)]
                after.contains_key(key) && key.offset <= block < key.offset + run_at(
                    after,
                    key,
                ).block_count;
            if key != top {
                assert(items.contains_key(key));
            } else if block < address {
                assert(items.contains_key(before));
            } else if block >= end {
                assert(items.contains_key(free_key(end)));
            }
        }
        if is_free(items, block) {
            let key = choose|key: BafsKey|
                #![trigger items.contains_key(key)]
                items.contains_key(key) && key.offset <= block < key.offset + run_at(
                    items,
                    key,
                ).block_count;
            if joined && key == before {
                assert(after.contains_key(top));
            } else if key == free_key(end) {
                assert(without.contains_key(free_key(end)));
                assert(after.contains_key(top));
            } else {
                assert(after.contains_key(key));
            }
        } else if address <= block < address + count {
            assert(after.contains_key(top));
        }
    }
}

/// The first item, from `index` on, whose extent ends where `address` begins.
pub open spec fn first_ending_at(items: Seq<LeafEntry>, address: u64, index: int) -> Result<
    Option<LeafEntry>,
    BafsError,
>
    decreases items.len() - index,
{
    if index >= items.len() {
        Ok(None)
    } else if items[index].value.len() < 16 {
        Err(BafsError::CorruptedStructure)
    } else {
        let extent = free_extent_from(items[index].value);
        if extent.block_address + extent.block_count == address {
            Ok(Some(items[index]))
        } else {
            first_ending_at(items, address, index + 1)
        }
    }
}

/// The first item, from `index` on, whose extent begins at `address`.
pub open spec fn first_beginning_at(items: Seq<LeafEntry>, address: int, index: int) -> Result<
    Option<LeafEntry>,
    BafsError,
>
    decreases items.len() - index,
{
    if index >= items.len() {
        Ok(None)
    } else if items[index].value.len() < 16 {
        Err(BafsError::CorruptedStructure)
    } else if free_extent_from(items[index].value).block_address == address {
        Ok(Some(items[index]))
    } else {
        first_beginning_at(items, address, index + 1)
    }
}

fn find_ending_at(items: &Vec<BafsLeafItem>, block_address: u64) -> (result: Result<
    Option<usize>,
    BafsError,
>)
    ensures
        match result {
            Err(error) => first_ending_at(node::leaf_entries(items@), block_address, 0) == Err::<
                Option<LeafEntry>,
                BafsError,
            >(error),
            Ok(None) => first_ending_at(node::leaf_entries(items@), block_address, 0) == Ok::<
                Option<LeafEntry>,
                BafsError,
            >(None),
            Ok(Some(index)) => {
                &&& index < items@.len()
                &&& items@[index as int].value@.len() >= 16
                &&& first_ending_at(node::leaf_entries(items@), block_address, 0) == Ok::<
                    Option<LeafEntry>,
                    BafsError,
                >(Some(items@[index as int]@))
            },
        },
{
    let ghost entries = node::leaf_entries(items@);
    let mut index: usize = 0;
    while index < items.len()
        invariant
            index <= items@.len(),
            entries == node::leaf_entries(items@),
            first_ending_at(entries, block_address, 0) == first_ending_at(
                entries,
                block_address,
                index as int,
            ),
        decreases items@.len() - index,
    {
        assert(entries[index as int] == items@[index as int]@);
        if items[index].value.len() < 16 {
            return Err(BafsError::CorruptedStructure);
        }
        let extent = deserialise_free_extent_from_bytes(items[index].value.as_slice());
        if extent.block_address <= block_address && block_address - extent.block_address
            == extent.block_count {
            return Ok(Some(index));
        }
        index = index + 1;
    }
    Ok(None)
}

fn find_beginning_at(items: &Vec<BafsLeafItem>, start: u64, count: u64) -> (result: Result<
    Option<usize>,
    BafsError,
>)
    ensures
        match result {
            Err(error) => first_beginning_at(node::leaf_entries(items@), start + count, 0) == Err::<
                Option<LeafEntry>,
                BafsError,
            >(error),
            Ok(None) => first_beginning_at(node::leaf_entries(items@), start + count, 0) == Ok::<
                Option<LeafEntry>,
                BafsError,
            >(None),
            Ok(Some(index)) => {
                &&& index < items@.len()
                &&& items@[index as int].value@.len() >= 16
                &&& first_beginning_at(node::leaf_entries(items@), start + count, 0) == Ok::<
                    Option<LeafEntry>,
                    BafsError,
                >(Some(items@[index as int]@))
            },
        },
{
    let ghost entries = node::leaf_entries(items@);
    let mut index: usize = 0;
    while index < items.len()
        invariant
            index <= items@.len(),
            entries == node::leaf_entries(items@),
            first_beginning_at(entries, start + count, 0) == first_beginning_at(
                entries,
                start + count,
                index as int,
            ),
        decreases items@.len() - index,
    {
        assert(entries[index as int] == items@[index as int]@);
        if items[index].value.len() < 16 {
            return Err(BafsError::CorruptedStructure);
        }
        let extent = deserialise_free_extent_from_bytes(items[index].value.as_slice());
        if extent.block_address >= start && extent.block_address - start == count {
            return Ok(Some(index));
        }
        index = index + 1;
    }
    Ok(None)
}

proof fn lemma_first_ending_at(items: Seq<LeafEntry>, address: u64, index: int)
    requires
        0 <= index,
        forall|i: int| 0 <= i < items.len() ==> (#[trigger] items[i]).value.len() >= 16,
    ensures
        match first_ending_at(items, address, index) {
            Err(_) => false,
            Ok(None) => forall|i: int|
                index <= i < items.len() ==> free_extent_from((#[trigger] items[i]).value).block_address
                    + free_extent_from(items[i].value).block_count != address,
            Ok(Some(item)) => exists|i: int|
                0 <= i < items.len() && #[trigger] items[i] == item && free_extent_from(
                    item.value,
                ).block_address + free_extent_from(item.value).block_count == address,
        },
    decreases items.len() - index,
{
    if index < items.len() {
        assert(items[index].value.len() >= 16);
        lemma_first_ending_at(items, address, index + 1);
        assert(items[index] == items[index]);
    }
}

proof fn lemma_first_beginning_at(items: Seq<LeafEntry>, address: int, index: int)
    requires
        0 <= index,
        forall|i: int| 0 <= i < items.len() ==> (#[trigger] items[i]).value.len() >= 16,
    ensures
        match first_beginning_at(items, address, index) {
            Err(_) => false,
            Ok(None) => forall|i: int|
                index <= i < items.len() ==> free_extent_from((#[trigger] items[i]).value).block_address
                    != address,
            Ok(Some(item)) => exists|i: int|
                0 <= i < items.len() && #[trigger] items[i] == item && free_extent_from(
                    item.value,
                ).block_address == address,
        },
    decreases items.len() - index,
{
    if index < items.len() {
        assert(items[index].value.len() >= 16);
        lemma_first_beginning_at(items, address, index + 1);
        assert(items[index] == items[index]);
    }
}

proof fn lemma_free_key_range(items: Map<BafsKey, Seq<u8>>, key: BafsKey)
    requires
        free_map_ok(items),
        items.contains_key(key),
    ensures
        free_key(0).rank() <= key.rank() <= free_key(u64::MAX).rank(),
{
    key::law_keys_are_ordered_lexicographically(key, free_key(0));
    key::law_keys_are_ordered_lexicographically(free_key(u64::MAX), key);
}

/// What the search for the extent before a freed range finds.
proof fn lemma_found_predecessor(blocks: Map<u64, Seq<u8>>, root: u64, address: u64)
    requires
        model::tree_sound(blocks, root),
        free_map_ok(model::tree_map(blocks, root)),
    ensures
        free_items(blocks, root) is Ok,
        ({
            let items = model::tree_map(blocks, root);
            match first_ending_at(free_items(blocks, root)->Ok_0, address, 0) {
                Err(_) => false,
                Ok(None) => !has_predecessor(items, address),
                Ok(Some(item)) => {
                    &&& has_predecessor(items, address)
                    &&& item.key == predecessor(items, address)
                    &&& items.contains_key(item.key)
                    &&& items[item.key] == item.value
                },
            }
        }),
{
    let items = model::tree_map(blocks, root);
    model::lemma_range_matches_map(blocks, root, free_key(0), free_key(u64::MAX));
    let found = free_items(blocks, root)->Ok_0;
    assert forall|i: int| 0 <= i < found.len() implies (#[trigger] found[i]).value.len() >= 16 by {
        assert(items.contains_key(found[i].key));
    }
    lemma_first_ending_at(found, address, 0);
    match first_ending_at(found, address, 0) {
        Err(_) => {},
        Ok(None) => {
            if has_predecessor(items, address) {
                let key = predecessor(items, address);
                assert(ends_at(items, key, address));
                lemma_free_key_range(items, key);
                let i = choose|i: int| 0 <= i < found.len() && (#[trigger] found[i]).key == key;
                assert(items[found[i].key] == found[i].value);
            }
        },
        Ok(Some(item)) => {
            let i = choose|i: int|
                0 <= i < found.len() && #[trigger] found[i] == item && free_extent_from(
                    item.value,
                ).block_address + free_extent_from(item.value).block_count == address;
            assert(items.contains_key(found[i].key));
            assert(ends_at(items, item.key, address));
            lemma_predecessor_unique(items, address, item.key, predecessor(items, address));
        },
    }
}

/// What the search for the extent behind a freed range finds.
proof fn lemma_found_successor(blocks: Map<u64, Seq<u8>>, root: u64, address: u64)
    requires
        model::tree_sound(blocks, root),
        free_map_ok(model::tree_map(blocks, root)),
    ensures
        free_items(blocks, root) is Ok,
        ({
            let items = model::tree_map(blocks, root);
            match first_beginning_at(free_items(blocks, root)->Ok_0, address as int, 0) {
                Err(_) => false,
                Ok(None) => !items.contains_key(free_key(address)),
                Ok(Some(item)) => {
                    &&& item.key == free_key(address)
                    &&& items.contains_key(item.key)
                    &&& items[item.key] == item.value
                },
            }
        }),
{
    let items = model::tree_map(blocks, root);
    model::lemma_range_matches_map(blocks, root, free_key(0), free_key(u64::MAX));
    let found = free_items(blocks, root)->Ok_0;
    assert forall|i: int| 0 <= i < found.len() implies (#[trigger] found[i]).value.len() >= 16 by {
        assert(items.contains_key(found[i].key));
    }
    lemma_first_beginning_at(found, address as int, 0);
    match first_beginning_at(found, address as int, 0) {
        Err(_) => {},
        Ok(None) => {
            if items.contains_key(free_key(address)) {
                let key = free_key(address);
                lemma_free_key_range(items, key);
                let i = choose|i: int| 0 <= i < found.len() && (#[trigger] found[i]).key == key;
                assert(items[found[i].key] == found[i].value);
            }
        },
        Ok(Some(item)) => {
            let i = choose|i: int|
                0 <= i < found.len() && #[trigger] found[i] == item && free_extent_from(
                    item.value,
                ).block_address == address;
            assert(items.contains_key(found[i].key));
        },
    }
}

proof fn lemma_fewer_free_extents(items: Map<BafsKey, Seq<u8>>, key: BafsKey)
    requires
        free_map_ok(items),
    ensures
        free_map_ok(items.remove(key)),
{
    let fewer = items.remove(key);
    assert forall|other: BafsKey| #[trigger] fewer.contains_key(other) implies items.contains_key(
        other,
    ) && fewer[other] == items[other] by {}
    assert forall|left: BafsKey, right: BafsKey| #[trigger]
        fewer.contains_key(left) && #[trigger] fewer.contains_key(right) && left.offset
            < right.offset implies left.offset + run_at(fewer, left).block_count
        <= right.offset by {
        assert(items.contains_key(left) && items.contains_key(right));
    }
}

/// Deleting a free extent, if there is one, leads from one stage to another.
pub open spec fn removed(
    disk: Seq<u8>,
    reliable: bool,
    from: TreeStage,
    to: TreeStage,
    item: Option<LeafEntry>,
) -> bool {
    match item {
        None => to == from,
        Some(item) => tree::deleted(disk, reliable, from, to, item.key, Ok(to.root)),
    }
}

/// The number of blocks in a free extent, if there is one.
pub open spec fn blocks_in(item: Option<LeafEntry>) -> int {
    match item {
        None => 0,
        Some(item) => free_extent_from(item.value).block_count as int,
    }
}

/// Where the blocks from `address` on begin, together with the free extent right
/// before them.
pub open spec fn merged_start(item: Option<LeafEntry>, address: u64) -> u64 {
    match item {
        None => address,
        Some(item) => free_extent_from(item.value).block_address,
    }
}

/// The last steps of freeing the `count` blocks at `address`, which begin where a
/// free extent right before them was deleted: the one right behind them is
/// deleted, and one that takes the place of all is put in.
#[verifier::opaque]
pub open spec fn freeing_ends(
    disk: Seq<u8>,
    reliable: bool,
    middle: TreeStage,
    last: TreeStage,
    end: TreeStage,
    address: u64,
    count: int,
    result: Result<u64, BafsError>,
) -> bool {
    let failed = match result {
        Ok(_) => None,
        Err(error) => Some(error),
    };
    match free_items(store::visible_blocks(disk, middle.cache), middle.root) {
        Err(error) => {
            &&& failed == Some(error) || failed == Some(BafsError::InputOutputError) && !reliable
            &&& end == middle
        },
        Ok(items) => {
            ||| failed == Some(BafsError::InputOutputError) && !reliable && end == middle
            ||| match first_beginning_at(items, address + count, 0) {
                Err(error) => failed == Some(error) && end == middle,
                Ok(next) => if count + blocks_in(next) > u64::MAX {
                    failed == Some(BafsError::CorruptedStructure) && end == middle
                } else {
                    ||| next is Some && failed is Some && tree::deleted(
                        disk,
                        reliable,
                        middle,
                        end,
                        next->Some_0.key,
                        Err(failed->Some_0),
                    )
                    ||| removed(disk, reliable, middle, last, next) && tree::inserted(
                        disk,
                        reliable,
                        last,
                        end,
                        free_key(address),
                        free_extent_bytes(
                            BafsFreeExtent {
                                block_address: address,
                                block_count: (count + blocks_in(next)) as u64,
                            },
                        ),
                        result,
                    )
                },
            }
        },
    }
}

/// Freeing the `count` blocks at `address` leads from one stage to another.
#[verifier::opaque]
pub open spec fn freeing_steps(
    disk: Seq<u8>,
    reliable: bool,
    start: TreeStage,
    middle: TreeStage,
    last: TreeStage,
    end: TreeStage,
    address: u64,
    count: u64,
    result: Result<u64, BafsError>,
) -> bool {
    let failed = match result {
        Ok(_) => None,
        Err(error) => Some(error),
    };
    match free_items(store::visible_blocks(disk, start.cache), start.root) {
        Err(error) => {
            &&& failed == Some(error) || failed == Some(BafsError::InputOutputError) && !reliable
            &&& end == start
        },
        Ok(items) => {
            ||| failed == Some(BafsError::InputOutputError) && !reliable && end == start
            ||| match first_ending_at(items, address, 0) {
                Err(error) => failed == Some(error) && end == start,
                Ok(previous) => if count + blocks_in(previous) > u64::MAX {
                    failed == Some(BafsError::CorruptedStructure) && end == start
                } else {
                    ||| previous is Some && failed is Some && tree::deleted(
                        disk,
                        reliable,
                        start,
                        end,
                        previous->Some_0.key,
                        Err(failed->Some_0),
                    )
                    ||| removed(disk, reliable, start, middle, previous) && freeing_ends(
                        disk,
                        reliable,
                        middle,
                        last,
                        end,
                        merged_start(previous, address),
                        count + blocks_in(previous),
                        result,
                    )
                },
            }
        },
    }
}

/// The outcome of returning blocks.
pub open spec fn freeing_outcome(
    disk: Seq<u8>,
    old_cache: Map<u64, Vec<u8>>,
    new_cache: Map<u64, Vec<u8>>,
    reliable: bool,
    root: u64,
    address: u64,
    count: u64,
    old_next: u64,
    new_next: u64,
    old_freed: Seq<u64>,
    new_freed: Seq<u64>,
    result: Result<u64, BafsError>,
) -> bool {
    let before = store::visible_blocks(disk, old_cache);
    let after = store::visible_blocks(disk, new_cache);
    &&& store::cache_valid(new_cache)
    &&& store::cow_frame(old_cache, new_cache, old_next as int, new_next as int)
    &&& old_next <= new_next <= old_next + 4 * tree::root_level(before, root) + 5
    &&& exists|middle: TreeStage, last: TreeStage, end: TreeStage| #[trigger]
        freeing_steps(
            disk,
            reliable,
            TreeStage { cache: old_cache, next: old_next, freed: old_freed, root },
            middle,
            last,
            end,
            address,
            count,
            result,
        ) && end.cache == new_cache && end.next == new_next && end.freed == new_freed && (
        result matches Ok(new_root) ==> end.root == new_root)
    &&& result matches Ok(new_root) ==> {
        &&& model::checked_node(after, new_root, model::root_span()) is Ok
        &&& tree::root_level(after, new_root) <= tree::root_level(before, root) + 1
        &&& fanout::gains(
            before,
            root,
            after,
            new_root,
            old_next as int,
            new_next as int,
            1,
        )
    }
    &&& forall|base: int| #[trigger]
        tree::tree_ready(before, root, base, old_next as int) && free_map_ok(
            model::tree_map(before, root),
        ) && address + count <= u64::MAX ==> {
            &&& result matches Ok(new_root) ==> {
                &&& tree::tree_ready(after, new_root, base, new_next as int)
                &&& model::tree_map(after, new_root) == freed_map(
                    model::tree_map(before, root),
                    address,
                    count,
                )
            }
            &&& tree::root_level(before, root) + 1 < model::level_limit() ==> result is Ok || result
                == Err::<u64, BafsError>(BafsError::InputOutputError) && !reliable
        }
}

/// The state of a free-extent tree between the steps of `free_blocks`: `map` is
/// what it holds if the tree was in order at the start.
spec fn freeing_step(
    disk: Seq<u8>,
    old_cache: Map<u64, Vec<u8>>,
    new_cache: Map<u64, Vec<u8>>,
    root: u64,
    new_root: u64,
    map: Map<BafsKey, Seq<u8>>,
    old_next: int,
    new_next: int,
) -> bool {
    let before = store::visible_blocks(disk, old_cache);
    let after = store::visible_blocks(disk, new_cache);
    &&& store::cache_valid(new_cache)
    &&& store::cow_frame(old_cache, new_cache, old_next, new_next)
    &&& model::checked_node(after, new_root, model::root_span()) is Ok
    &&& tree::root_level(after, new_root) == tree::root_level(before, root)
    &&& fanout::gains(before, root, after, new_root, old_next, new_next, 0)
    &&& forall|base: int| #[trigger]
        tree::tree_ready(before, root, base, old_next) ==> tree::tree_ready(
            after,
            new_root,
            base,
            new_next,
        ) && model::tree_map(after, new_root) == map
}

proof fn lemma_freeing_step(
    disk: Seq<u8>,
    old_cache: Map<u64, Vec<u8>>,
    middle_cache: Map<u64, Vec<u8>>,
    new_cache: Map<u64, Vec<u8>>,
    root: u64,
    middle_root: u64,
    new_root: u64,
    map: Map<BafsKey, Seq<u8>>,
    key: BafsKey,
    old_next: int,
    middle_next: int,
    new_next: int,
)
    requires
        freeing_step(
            disk,
            old_cache,
            middle_cache,
            root,
            middle_root,
            map,
            old_next,
            middle_next,
        ),
        tree::tree_replaced(
            disk,
            middle_cache,
            new_cache,
            middle_root,
            new_root,
            key,
            None,
            middle_next,
            new_next,
        ),
        tree::root_level(store::visible_blocks(disk, new_cache), new_root) == tree::root_level(
            store::visible_blocks(disk, middle_cache),
            middle_root,
        ),
        fanout::gains(
            store::visible_blocks(disk, middle_cache),
            middle_root,
            store::visible_blocks(disk, new_cache),
            new_root,
            middle_next,
            new_next,
            0,
        ),
        old_next <= middle_next,
    ensures
        freeing_step(
            disk,
            old_cache,
            new_cache,
            root,
            new_root,
            map.remove(key),
            old_next,
            new_next,
        ),
{
    let before = store::visible_blocks(disk, old_cache);
    let middle = store::visible_blocks(disk, middle_cache);
    let after = store::visible_blocks(disk, new_cache);
    fanout::lemma_gains_join(
        before,
        root,
        middle,
        middle_root,
        after,
        new_root,
        old_next,
        middle_next,
        new_next,
        0,
        0,
    );
    store::lemma_cow_frame_joins(
        old_cache,
        middle_cache,
        new_cache,
        old_next,
        middle_next,
        new_next,
    );
    assert forall|base: int| #[trigger]
        tree::tree_ready(before, root, base, old_next) implies tree::tree_ready(
        after,
        new_root,
        base,
        new_next,
    ) && model::tree_map(after, new_root) == map.remove(key) by {
        tree::lemma_tree_stays_ready(
            disk,
            middle_cache,
            new_cache,
            middle_root,
            new_root,
            key,
            None,
            base,
            middle_next,
            new_next,
        );
    }
}

/// Returning blocks only appends to the addresses of superseded nodes.
pub proof fn lemma_freeing_extends(
    disk: Seq<u8>,
    old_cache: Map<u64, Vec<u8>>,
    new_cache: Map<u64, Vec<u8>>,
    reliable: bool,
    root: u64,
    address: u64,
    count: u64,
    old_next: u64,
    new_next: u64,
    old_freed: Seq<u64>,
    new_freed: Seq<u64>,
    result: Result<u64, BafsError>,
)
    requires
        freeing_outcome(
            disk,
            old_cache,
            new_cache,
            reliable,
            root,
            address,
            count,
            old_next,
            new_next,
            old_freed,
            new_freed,
            result,
        ),
    ensures
        tree::extends(old_freed, new_freed),
{
    reveal(freeing_steps);
    reveal(freeing_ends);
}

/// Put a free extent into a tree that free extents were taken from.
#[verifier::spinoff_prover]
#[verifier::rlimit(40)]
fn put_merged_extent<D: BlockDevice>(
    device: &D,
    dirty_cache: &mut BTreeMap<u64, Vec<u8>>,
    current_root: u64,
    merged_start: u64,
    merged_count: u64,
    generation: u64,
    next_free_block: &mut u64,
    freed_blocks: &mut Vec<u64>,
    Ghost(old_cache): Ghost<Map<u64, Vec<u8>>>,
    Ghost(root): Ghost<u64>,
    Ghost(map): Ghost<Map<BafsKey, Seq<u8>>>,
    Ghost(old_next): Ghost<int>,
) -> (result: Result<u64, BafsError>)
    requires
        *old(next_free_block) + 512 <= u64::MAX,
        old_next <= *old(next_free_block),
        freeing_step(
            device.contents(),
            old_cache,
            old(dirty_cache)@,
            root,
            current_root,
            map,
            old_next,
            *old(next_free_block) as int,
        ),
        store::stamped(
            old(dirty_cache)@,
            old_next,
            *old(next_free_block) as int,
            generation,
        ),
    ensures
        store::stamped(
            final(dirty_cache)@,
            old_next,
            *final(next_free_block) as int,
            generation,
        ),
        store::cache_valid(final(dirty_cache)@),
        store::cow_frame(
            old_cache,
            final(dirty_cache)@,
            old_next,
            *final(next_free_block) as int,
        ),
        ({
            let value = free_extent_bytes(
                (BafsFreeExtent { block_address: merged_start, block_count: merged_count }),
            );
            let before = store::visible_blocks(device.contents(), old_cache);
            let after = store::visible_blocks(device.contents(), final(dirty_cache)@);
            &&& tree::insertion_outcome(
                device.contents(),
                old(dirty_cache)@,
                final(dirty_cache)@,
                device.reliable(),
                current_root,
                free_key(merged_start),
                value,
                *old(next_free_block),
                *final(next_free_block),
                old(freed_blocks)@,
                final(freed_blocks)@,
                result,
            )
            &&& result matches Ok(new_root) ==> fanout::gains(
                before,
                root,
                after,
                new_root,
                old_next,
                *final(next_free_block) as int,
                1,
            )
            &&& forall|base: int| #[trigger]
                tree::tree_ready(before, root, base, old_next) ==> {
                    &&& result matches Ok(new_root) ==> tree::tree_ready(
                        after,
                        new_root,
                        base,
                        *final(next_free_block) as int,
                    ) && model::tree_map(after, new_root) == map.insert(
                        free_key(merged_start),
                        value,
                    )
                    &&& tree::root_level(before, root) + 1 < model::level_limit() ==> result is Ok
                        || result == Err::<u64, BafsError>(BafsError::InputOutputError)
                        && !device.reliable()
                }
        }),
{
    let ghost disk = device.contents();
    let ghost before = store::visible_blocks(disk, old_cache);
    let ghost last_cache = dirty_cache@;
    let ghost last = store::visible_blocks(disk, last_cache);
    let ghost last_next = *next_free_block as int;
    let ghost last_root = current_root;
    let ghost merged = BafsFreeExtent { block_address: merged_start, block_count: merged_count };
    proof {
        law_free_extent_round_trip(merged);
        assert forall|base: int| #[trigger]
            tree::tree_ready(before, root, base, old_next) && tree::root_level(before, root) + 1
                < model::level_limit() implies tree::insert_error(
            last,
            last_root,
            free_key(merged_start),
            free_extent_bytes(merged),
        ) is None by {
            tree::lemma_insert_succeeds(
                last,
                last_root,
                free_key(merged_start),
                free_extent_bytes(merged),
            );
        }
    }
    let inserted = insert_free_extent_into_tree(
        device,
        dirty_cache,
        current_root,
        merged_start,
        merged_count,
        generation,
        next_free_block,
        freed_blocks,
    );
    match inserted {
        Err(error) => Err(error),
        Ok(new_root) => {
            proof {
                let after = store::visible_blocks(disk, dirty_cache@);
                let new_next = *next_free_block as int;
                fanout::lemma_gains_join(
                    before,
                    root,
                    last,
                    last_root,
                    after,
                    new_root,
                    old_next,
                    last_next,
                    new_next,
                    0,
                    1,
                );
                store::lemma_stamped_joins(
                    last_cache,
                    dirty_cache@,
                    old_next,
                    last_next,
                    new_next,
                    generation,
                );
                store::lemma_cow_frame_joins(
                    old_cache,
                    last_cache,
                    dirty_cache@,
                    old_next,
                    last_next,
                    new_next,
                );
                assert forall|base: int| #[trigger]
                    tree::tree_ready(before, root, base, old_next) implies tree::tree_ready(
                    after,
                    new_root,
                    base,
                    new_next,
                ) && model::tree_map(after, new_root) == map.insert(
                    free_key(merged_start),
                    free_extent_bytes(merged),
                ) by {
                    tree::lemma_tree_stays_ready(
                        disk,
                        last_cache,
                        dirty_cache@,
                        last_root,
                        new_root,
                        free_key(merged_start),
                        Some(free_extent_bytes(merged)),
                        base,
                        last_next,
                        new_next,
                    );
                }
            }
            Ok(new_root)
        },
    }
}

/// A free map with one more run in it, merged with the free extent right behind it.
pub open spec fn run_added(
    items: Map<BafsKey, Seq<u8>>,
    start: u64,
    count: u64,
) -> Map<BafsKey, Seq<u8>> {
    let end = (start + count) as u64;
    let behind = if items.contains_key(free_key(end)) {
        run_at(items, free_key(end)).block_count as int
    } else {
        0
    };
    items.remove(free_key(end)).insert(
        free_key(start),
        free_extent_bytes(
            BafsFreeExtent { block_address: start, block_count: (count + behind) as u64 },
        ),
    )
}

/// The outcome of putting a free run into a tree of free extents.
spec fn run_outcome(
    disk: Seq<u8>,
    reliable: bool,
    from: TreeStage,
    new_cache: Map<u64, Vec<u8>>,
    new_next: u64,
    new_freed: Seq<u64>,
    start: u64,
    count: u64,
    result: Result<u64, BafsError>,
) -> bool {
    let before = store::visible_blocks(disk, from.cache);
    let after = store::visible_blocks(disk, new_cache);
    &&& store::cache_valid(new_cache)
    &&& store::cow_frame(from.cache, new_cache, from.next as int, new_next as int)
    &&& from.next <= new_next <= from.next + 3 * tree::root_level(before, from.root) + 4
    &&& exists|last: TreeStage, end: TreeStage| #[trigger]
        freeing_ends(disk, reliable, from, last, end, start, count as int, result) && end.cache
            == new_cache && end.next == new_next && end.freed == new_freed && (
        result matches Ok(new_root) ==> end.root == new_root)
    &&& result matches Ok(new_root) ==> {
        &&& model::checked_node(after, new_root, model::root_span()) is Ok
        &&& tree::root_level(after, new_root) <= tree::root_level(before, from.root) + 1
        &&& fanout::gains(
            before,
            from.root,
            after,
            new_root,
            from.next as int,
            new_next as int,
            1,
        )
    }
    &&& forall|base: int| #[trigger]
        tree::tree_ready(before, from.root, base, from.next as int) && free_map_ok(
            model::tree_map(before, from.root),
        ) && start + count <= u64::MAX ==> {
            &&& result matches Ok(new_root) ==> {
                &&& tree::tree_ready(after, new_root, base, new_next as int)
                &&& model::tree_map(after, new_root) == run_added(
                    model::tree_map(before, from.root),
                    start,
                    count,
                )
            }
            &&& tree::root_level(before, from.root) + 1 < model::level_limit() ==> result is Ok
                || result == Err::<u64, BafsError>(BafsError::InputOutputError) && !reliable
        }
}

/// Put a free run into a tree of free extents, merged with the free extent right
/// behind it. Returns the address of the tree's new root.
#[verifier::spinoff_prover]
#[verifier::rlimit(60)]
fn add_free_run<D: BlockDevice>(
    device: &D,
    dirty_cache: &mut BTreeMap<u64, Vec<u8>>,
    free_extent_tree_root_block: u64,
    run_start: u64,
    run_count: u64,
    generation: u64,
    next_free_block: &mut u64,
    freed_blocks: &mut Vec<u64>,
) -> (result: Result<u64, BafsError>)
    requires
        store::cache_valid(old(dirty_cache)@),
        *old(next_free_block) + 1024 <= u64::MAX,
    ensures
        store::stamped(
            final(dirty_cache)@,
            *old(next_free_block) as int,
            *final(next_free_block) as int,
            generation,
        ),
        run_outcome(
            device.contents(),
            device.reliable(),
            TreeStage {
                cache: old(dirty_cache)@,
                next: *old(next_free_block),
                freed: old(freed_blocks)@,
                root: free_extent_tree_root_block,
            },
            final(dirty_cache)@,
            *final(next_free_block),
            final(freed_blocks)@,
            run_start,
            run_count,
            result,
        ),
{
    let ghost disk = device.contents();
    let ghost reliable = device.reliable();
    let ghost root = free_extent_tree_root_block;
    let ghost from = TreeStage {
        cache: dirty_cache@,
        next: *next_free_block,
        freed: freed_blocks@,
        root,
    };
    let ghost old_cache = dirty_cache@;
    let ghost before = store::visible_blocks(disk, old_cache);
    let ghost old_next = *next_free_block as int;
    let ghost start_map = model::tree_map(before, root);
    let ghost mut map = start_map;
    let ghost in_order = free_map_ok(start_map) && run_start + run_count <= u64::MAX;
    let min_key = BafsKey::new(BAFS_FREE_EXTENT_OBJECT_ID, ITEM_TYPE_EXTENT_DATA, 0);
    let max_key = BafsKey::new(BAFS_FREE_EXTENT_OBJECT_ID, ITEM_TYPE_EXTENT_DATA, u64::MAX);
    let mut current_root: u64 = free_extent_tree_root_block;
    let mut merged_count: u64 = run_count;
    proof {
        store::lemma_stamped_none(old_cache, old_next, generation);
        fanout::lemma_gains_nothing(before, root, old_next);
        lemma_scan_fails_only_when_damaged(before, root);
    }
    let items = match tree::iterate_tree_range(
        device,
        dirty_cache,
        current_root,
        min_key,
        max_key,
    ) {
        Ok(items) => items,
        Err(error) => {
            assert(freeing_ends(
                disk,
                reliable,
                from,
                from,
                from,
                run_start,
                run_count as int,
                Err(error),
            )) by {
                reveal(freeing_ends);
            }
            return Err(error);
        },
    };
    proof {
        if in_order && model::tree_sound(before, root) {
            lemma_found_successor(before, root, (run_start + run_count) as u64);
        }
    }
    match find_beginning_at(&items, run_start, run_count) {
        Err(error) => {
            assert(freeing_ends(
                disk,
                reliable,
                from,
                from,
                from,
                run_start,
                run_count as int,
                Err(error),
            )) by {
                reveal(freeing_ends);
            }
            return Err(error);
        },
        Ok(None) => {},
        Ok(Some(index)) => {
            let extent = deserialise_free_extent_from_bytes(items[index].value.as_slice());
            if extent.block_count > u64::MAX - merged_count {
                assert(freeing_ends(
                    disk,
                    reliable,
                    from,
                    from,
                    from,
                    run_start,
                    run_count as int,
                    Err(BafsError::CorruptedStructure),
                )) by {
                    reveal(freeing_ends);
                }
                return Err(BafsError::CorruptedStructure);
            }
            merged_count = merged_count + extent.block_count;
            match remove_free_extent_from_tree(
                device,
                dirty_cache,
                current_root,
                items[index].key,
                generation,
                next_free_block,
                freed_blocks,
            ) {
                Ok(new_root) => {
                    proof {
                        store::lemma_stamped_joins(
                            from.cache,
                            dirty_cache@,
                            old_next,
                            old_next,
                            *next_free_block as int,
                            generation,
                        );
                        let key = items@[index as int].key;
                        lemma_freeing_step(
                            disk,
                            old_cache,
                            from.cache,
                            dirty_cache@,
                            root,
                            root,
                            new_root,
                            map,
                            key,
                            old_next,
                            old_next,
                            *next_free_block as int,
                        );
                        map = map.remove(key);
                    }
                    current_root = new_root;
                },
                Err(error) => {
                    assert(freeing_ends(
                        disk,
                        reliable,
                        from,
                        from,
                        from,
                        run_start,
                        run_count as int,
                        Err(error),
                    )) by {
                        reveal(freeing_ends);
                    }
                    return Err(error);
                },
            }
        },
    }
    let ghost last_stage = TreeStage {
        cache: dirty_cache@,
        next: *next_free_block,
        freed: freed_blocks@,
        root: current_root,
    };
    let ghost last_next = *next_free_block as int;
    let ghost last_root = current_root;
    let ghost merged = BafsFreeExtent { block_address: run_start, block_count: merged_count };
    proof {
        assert forall|base: int| #[trigger]
            tree::tree_ready(before, root, base, old_next) && in_order implies map.insert(
            free_key(run_start),
            free_extent_bytes(merged),
        ) == run_added(start_map, run_start, run_count) by {
            assert(map.insert(free_key(run_start), free_extent_bytes(merged)) =~= run_added(
                start_map,
                run_start,
                run_count,
            ));
        }
        assert(freeing_step(
            disk,
            old_cache,
            dirty_cache@,
            root,
            last_root,
            map,
            old_next,
            last_next,
        ));
    }
    let inserted = put_merged_extent(
        device,
        dirty_cache,
        current_root,
        run_start,
        merged_count,
        generation,
        next_free_block,
        freed_blocks,
        Ghost(old_cache),
        Ghost(root),
        Ghost(map),
        Ghost(old_next),
    );
    let ghost end_stage = TreeStage {
        cache: dirty_cache@,
        next: *next_free_block,
        freed: freed_blocks@,
        root: match inserted {
            Ok(new_root) => new_root,
            Err(_) => current_root,
        },
    };
    assert(freeing_ends(
        disk,
        reliable,
        from,
        last_stage,
        end_stage,
        run_start,
        run_count as int,
        inserted,
    )) by {
        reveal(freeing_ends);
    }
    inserted
}

/// Where a free extent right before some blocks was taken out, and the blocks were
/// put into the tree together with it, they were returned.
#[verifier::spinoff_prover]
#[verifier::rlimit(60)]
proof fn lemma_freeing_joins(
    disk: Seq<u8>,
    reliable: bool,
    start: TreeStage,
    middle: TreeStage,
    new_cache: Map<u64, Vec<u8>>,
    new_next: u64,
    new_freed: Seq<u64>,
    map: Map<BafsKey, Seq<u8>>,
    address: u64,
    count: u64,
    run_start: u64,
    run_count: u64,
    generation: u64,
    result: Result<u64, BafsError>,
)
    requires
        run_outcome(
            disk,
            reliable,
            middle,
            new_cache,
            new_next,
            new_freed,
            run_start,
            run_count,
            result,
        ),
        start.next <= middle.next <= start.next + tree::root_level(
            store::visible_blocks(disk, start.cache),
            start.root,
        ) + 1,
        freeing_step(
            disk,
            start.cache,
            middle.cache,
            start.root,
            middle.root,
            map,
            start.next as int,
            middle.next as int,
        ),
        ({
            let items = free_items(store::visible_blocks(disk, start.cache), start.root);
            &&& items is Ok
            &&& first_ending_at(items->Ok_0, address, 0) is Ok
            &&& {
                let previous = first_ending_at(items->Ok_0, address, 0)->Ok_0;
                &&& count + blocks_in(previous) <= u64::MAX
                &&& removed(disk, reliable, start, middle, previous)
                &&& run_start == merged_start(previous, address)
                &&& run_count == count + blocks_in(previous)
                &&& map == match previous {
                    None => model::tree_map(
                        store::visible_blocks(disk, start.cache),
                        start.root,
                    ),
                    Some(item) => model::tree_map(
                        store::visible_blocks(disk, start.cache),
                        start.root,
                    ).remove(item.key),
                }
            }
        }),
        store::stamped(middle.cache, start.next as int, middle.next as int, generation),
        store::stamped(new_cache, middle.next as int, new_next as int, generation),
    ensures
        store::stamped(new_cache, start.next as int, new_next as int, generation),
        freeing_outcome(
            disk,
            start.cache,
            new_cache,
            reliable,
            start.root,
            address,
            count,
            start.next,
            new_next,
            start.freed,
            new_freed,
            result,
        ),
{
    let before = store::visible_blocks(disk, start.cache);
    let root = start.root;
    let items = model::tree_map(before, root);
    if let Ok(new_root) = result {
        fanout::lemma_gains_join(
            before,
            root,
            store::visible_blocks(disk, middle.cache),
            middle.root,
            store::visible_blocks(disk, new_cache),
            new_root,
            start.next as int,
            middle.next as int,
            new_next as int,
            0,
            1,
        );
    }
    store::lemma_stamped_joins(
        middle.cache,
        new_cache,
        start.next as int,
        middle.next as int,
        new_next as int,
        generation,
    );
    store::lemma_cow_frame_joins(
        start.cache,
        middle.cache,
        new_cache,
        start.next as int,
        middle.next as int,
        new_next as int,
    );
    let (last, end) = choose|last: TreeStage, end: TreeStage| #[trigger]
        freeing_ends(disk, reliable, middle, last, end, run_start, run_count as int, result)
            && end.cache == new_cache && end.next == new_next && end.freed == new_freed && (
        result matches Ok(new_root) ==> end.root == new_root);
    assert(freeing_steps(
        disk,
        reliable,
        start,
        middle,
        last,
        end,
        address,
        count,
        result,
    )) by {
        reveal(freeing_steps);
    }
    if free_map_ok(items) && address + count <= u64::MAX && model::tree_sound(before, root) {
        lemma_found_predecessor(before, root, address);
        lemma_fewer_free_extents_if(items, address);
        let previous = first_ending_at(free_items(before, root)->Ok_0, address, 0)->Ok_0;
        assert(free_map_ok(map));
        assert(run_start + run_count == address + count);
        assert(run_added(map, run_start, run_count) =~= freed_map(items, address, count));
    }
}

/// Return `block_count` blocks from `block_address` on to the free extents,
/// merged with the free extents right before and right behind them. Returns the
/// address of the tree's new root.
#[verifier::spinoff_prover]
#[verifier::rlimit(40)]
pub fn free_blocks<D: BlockDevice>(
    device: &D,
    dirty_cache: &mut BTreeMap<u64, Vec<u8>>,
    free_extent_tree_root_block: u64,
    block_address: u64,
    block_count: u64,
    generation: u64,
    next_free_block: &mut u64,
    freed_blocks: &mut Vec<u64>,
) -> (result: Result<u64, BafsError>)
    requires
        store::cache_valid(old(dirty_cache)@),
        *old(next_free_block) + 1536 <= u64::MAX,
    ensures
        store::stamped(
            final(dirty_cache)@,
            *old(next_free_block) as int,
            *final(next_free_block) as int,
            generation,
        ),
        freeing_outcome(
            device.contents(),
            old(dirty_cache)@,
            final(dirty_cache)@,
            device.reliable(),
            free_extent_tree_root_block,
            block_address,
            block_count,
            *old(next_free_block),
            *final(next_free_block),
            old(freed_blocks)@,
            final(freed_blocks)@,
            result,
        ),
{
    let ghost disk = device.contents();
    let ghost old_cache = dirty_cache@;
    let ghost before = store::visible_blocks(disk, old_cache);
    let ghost root = free_extent_tree_root_block;
    let ghost old_next = *next_free_block as int;
    let ghost reliable = device.reliable();
    let ghost start = TreeStage {
        cache: old_cache,
        next: *next_free_block,
        freed: freed_blocks@,
        root,
    };
    let ghost start_map = model::tree_map(before, root);
    let ghost mut map = start_map;
    let ghost in_order = free_map_ok(start_map) && block_address + block_count <= u64::MAX;
    let min_key = BafsKey::new(BAFS_FREE_EXTENT_OBJECT_ID, ITEM_TYPE_EXTENT_DATA, 0);
    let max_key = BafsKey::new(BAFS_FREE_EXTENT_OBJECT_ID, ITEM_TYPE_EXTENT_DATA, u64::MAX);
    let items = match tree::iterate_tree_range(
        device,
        dirty_cache,
        free_extent_tree_root_block,
        min_key,
        max_key,
    ) {
        Ok(items) => items,
        Err(error) => {
            proof {
                lemma_scan_fails_only_when_damaged(before, root);
                assert(freeing_steps(
                    disk,
                    reliable,
                    start,
                    start,
                    start,
                    start,
                    block_address,
                    block_count,
                    Err(error),
                )) by {
                    reveal(freeing_steps);
                    reveal(freeing_ends);
                }
            }
            return Err(error);
        },
    };
    proof {
        lemma_scan_fails_only_when_damaged(before, root);
        if in_order && model::tree_sound(before, root) {
            lemma_found_predecessor(before, root, block_address);
        }
        store::lemma_stamped_none(old_cache, old_next, generation);
        fanout::lemma_gains_nothing(before, root, old_next);
    }
    let mut merged_start: u64 = block_address;
    let mut merged_count: u64 = block_count;
    let mut current_root: u64 = free_extent_tree_root_block;
    match find_ending_at(&items, block_address) {
        Err(error) => {
            assert(freeing_steps(
                disk,
                reliable,
                start,
                start,
                start,
                start,
                block_address,
                block_count,
                Err(error),
            )) by {
                reveal(freeing_steps);
                reveal(freeing_ends);
            }
            return Err(error);
        },
        Ok(None) => {},
        Ok(Some(index)) => {
            let extent = deserialise_free_extent_from_bytes(items[index].value.as_slice());
            if extent.block_count > u64::MAX - block_count {
                assert(freeing_steps(
                    disk,
                    reliable,
                    start,
                    start,
                    start,
                    start,
                    block_address,
                    block_count,
                    Err(BafsError::CorruptedStructure),
                )) by {
                    reveal(freeing_steps);
                    reveal(freeing_ends);
                }
                return Err(BafsError::CorruptedStructure);
            }
            merged_start = extent.block_address;
            merged_count = block_count + extent.block_count;
            match remove_free_extent_from_tree(
                device,
                dirty_cache,
                current_root,
                items[index].key,
                generation,
                next_free_block,
                freed_blocks,
            ) {
                Ok(new_root) => {
                    proof {
                        let key = items@[index as int].key;
                        lemma_freeing_step(
                            disk,
                            old_cache,
                            old_cache,
                            dirty_cache@,
                            root,
                            root,
                            new_root,
                            map,
                            key,
                            old_next,
                            old_next,
                            *next_free_block as int,
                        );
                        map = map.remove(key);
                    }
                    current_root = new_root;
                },
                Err(error) => {
                    assert(freeing_steps(
                        disk,
                        reliable,
                        start,
                        start,
                        start,
                        start,
                        block_address,
                        block_count,
                        Err(error),
                    )) by {
                        reveal(freeing_steps);
                        reveal(freeing_ends);
                    }
                    return Err(error);
                },
            }
        },
    }
    let ghost middle_stage = TreeStage {
        cache: dirty_cache@,
        next: *next_free_block,
        freed: freed_blocks@,
        root: current_root,
    };
    proof {
        lemma_fewer_free_extents_if(start_map, block_address);
        assert(freeing_step(
            disk,
            old_cache,
            middle_stage.cache,
            root,
            middle_stage.root,
            map,
            old_next,
            middle_stage.next as int,
        ));
    }
    let result = add_free_run(
        device,
        dirty_cache,
        current_root,
        merged_start,
        merged_count,
        generation,
        next_free_block,
        freed_blocks,
    );
    proof {
        lemma_freeing_joins(
            disk,
            reliable,
            start,
            middle_stage,
            dirty_cache@,
            *next_free_block,
            freed_blocks@,
            map,
            block_address,
            block_count,
            merged_start,
            merged_count,
            generation,
            result,
        );
    }
    result
}

proof fn lemma_scan_fails_only_when_damaged(blocks: Map<u64, Seq<u8>>, root: u64)
    ensures
        model::tree_sound(blocks, root) ==> free_items(blocks, root) is Ok,
        free_items(blocks, root) is Ok ==> model::checked_node(
            blocks,
            root,
            model::root_span(),
        ) is Ok,
{
    if model::tree_sound(blocks, root) {
        model::law_sound_tree_can_be_scanned(blocks, root, free_key(0), free_key(u64::MAX));
    }
}

proof fn lemma_fewer_free_extents_if(items: Map<BafsKey, Seq<u8>>, address: u64)
    ensures
        free_map_ok(items) ==> free_map_ok(items.remove(predecessor(items, address))),
{
    if free_map_ok(items) {
        lemma_fewer_free_extents(items, predecessor(items, address));
    }
}

/// Between any two free extents lies a block that is not free.
#[verifier::opaque]
pub open spec fn runs_apart(items: Map<BafsKey, Seq<u8>>) -> bool {
    forall|left: BafsKey, right: BafsKey| #[trigger]
        items.contains_key(left) && #[trigger] items.contains_key(right) && left.offset
            < right.offset ==> left.offset + run_at(items, left).block_count < right.offset
}

/// Returned blocks are joined with the free extents on both sides: extents that do not
/// touch each other still do not.
pub proof fn law_freeing_joins_runs(items: Map<BafsKey, Seq<u8>>, address: u64, count: u64)
    requires
        free_map_ok(items),
        runs_apart(items),
        count > 0,
        address + count <= u64::MAX,
        forall|block: u64|
            address <= block < address + count ==> !#[trigger] is_free(items, block),
    ensures
        runs_apart(freed_map(items, address, count)),
{
    reveal(runs_apart);
    law_freeing_returns_blocks(items, address, count);
    let after = freed_map(items, address, count);
    let end = (address + count) as u64;
    let joined = has_predecessor(items, address);
    let before = predecessor(items, address);
    let start = if joined {
        before.offset
    } else {
        address
    };
    if joined {
        assert(ends_at(items, before, address));
        assert(before == free_key(before.offset));
    }
    assert(free_key(end).offset == end);
    let behind = if items.contains_key(free_key(end)) {
        run_at(items, free_key(end)).block_count as int
    } else {
        0
    };
    if items.contains_key(free_key(end)) && joined {
        assert(before.offset < end);
    }
    assert(end - start + behind <= u64::MAX);
    law_free_extent_round_trip(
        BafsFreeExtent { block_address: start, block_count: (end - start + behind) as u64 },
    );
    let run = free_key(start);
    assert(run_at(after, run).block_count == end - start + behind);
    assert forall|left: BafsKey, right: BafsKey| #[trigger]
        after.contains_key(left) && #[trigger] after.contains_key(right) && left.offset
            < right.offset implies left.offset + run_at(after, left).block_count < right.offset by {
        if left != run && right != run {
            assert(items.contains_key(left) && items.contains_key(right));
        } else if left == run {
            assert(items.contains_key(right));
            assert(right == free_key(right.offset));
            if items.contains_key(free_key(end)) {
                if right.offset < end {
                    assert(!is_free(items, right.offset)) by {
                        if joined && right.offset < address {
                            assert(items.contains_key(before));
                        }
                    }
                }
            } else if right.offset <= end {
                if right.offset < address {
                    if joined {
                        assert(items.contains_key(before));
                    }
                }
                assert(items.contains_key(right) && right.offset <= right.offset < right.offset
                    + run_at(items, right).block_count);
            }
        } else {
            assert(items.contains_key(left));
            assert(left == free_key(left.offset));
            if joined {
                assert(items.contains_key(before));
            } else {
                if left.offset + run_at(items, left).block_count > address {
                    assert(is_free(items, address)) by {
                        assert(items.contains_key(left));
                    }
                } else if left.offset + run_at(items, left).block_count == address {
                    assert(ends_at(items, left, address));
                }
            }
        }
    }
}

/// Blocks are taken from the front of a free extent: extents that do not touch each
/// other still do not.
pub proof fn law_allocation_keeps_runs_apart(
    items: Map<BafsKey, Seq<u8>>,
    item: LeafEntry,
    requested: u64,
)
    requires
        free_map_ok(items),
        runs_apart(items),
        items.contains_key(item.key),
        items[item.key] == item.value,
        0 < requested <= free_extent_from(item.value).block_count,
    ensures
        runs_apart(allocated_map(items, item, requested)),
{
    reveal(runs_apart);
    let after = allocated_map(items, item, requested);
    let extent = free_extent_from(item.value);
    let start = (extent.block_address + requested) as u64;
    let rest = BafsFreeExtent {
        block_address: start,
        block_count: (extent.block_count - requested) as u64,
    };
    law_free_extent_round_trip(rest);
    assert(item.key.offset == extent.block_address);
    assert forall|left: BafsKey, right: BafsKey| #[trigger]
        after.contains_key(left) && #[trigger] after.contains_key(right) && left.offset
            < right.offset implies left.offset + run_at(after, left).block_count < right.offset by {
        let split = free_key(start);
        if extent.block_count > requested && left == split {
            assert(items.contains_key(right));
            assert(items.contains_key(item.key));
        } else if extent.block_count > requested && right == split {
            assert(items.contains_key(left));
            assert(items.contains_key(item.key));
        } else {
            assert(items.contains_key(left) && items.contains_key(right));
        }
    }
}

} // verus!
