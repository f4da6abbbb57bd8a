//! The tree of data block checksums.
//!
//! Metadata blocks carry their own checksums; those of data blocks are kept
//! apart, so that a data block is data from its first byte to its last.

use std::collections::BTreeMap;
use vstd::prelude::*;
use crate::block_device::BlockDevice;
use crate::btree::key::{BafsKey, ITEM_TYPE_CHECKSUM_ENTRY};
use crate::btree::model;
use crate::btree::store;
use crate::btree::tree;
use crate::bytes;
use crate::checksum;
use crate::error::BafsError;
use crate::superblock::BAFS_CHECKSUM_OBJECT_ID;

verus! {

broadcast use crate::bytes::lemma_le_bytes_len;

/// The checksum of a data block, 16 bytes on disk.
#[derive(Clone, Copy, Debug)]
pub struct BafsChecksumItem {
    /// The data block.
    pub block_address: u64,
    /// Its checksum.
    pub crc32c_checksum: u32,
    /// Reserved.
    pub reserved: u32,
}

/// The encoding of a checksum item.
pub open spec fn checksum_item_bytes(item: BafsChecksumItem) -> Seq<u8> {
    bytes::le_bytes(item.block_address as nat, 8) + bytes::le_bytes(item.crc32c_checksum as nat, 4)
        + bytes::le_bytes(item.reserved as nat, 4)
}

/// The checksum item that is encoded in `source`.
pub open spec fn checksum_item_from(source: Seq<u8>) -> BafsChecksumItem {
    BafsChecksumItem {
        block_address: bytes::field(source, 0, 8) as u64,
        crc32c_checksum: bytes::field(source, 8, 4) as u32,
        reserved: bytes::field(source, 12, 4) as u32,
    }
}

/// Reading back an encoded checksum item gives the item.
pub proof fn law_checksum_item_round_trip(item: BafsChecksumItem)
    ensures
        checksum_item_bytes(item).len() == 16,
        checksum_item_from(checksum_item_bytes(item)) == item,
{
    bytes::lemma_byte_capacities();
    let encoded = checksum_item_bytes(item);
    assert(encoded.subrange(0, 8) =~= bytes::le_bytes(item.block_address as nat, 8));
    bytes::lemma_field(encoded, 0, 8, item.block_address as nat);
    assert(encoded.subrange(8, 12) =~= bytes::le_bytes(item.crc32c_checksum as nat, 4));
    bytes::lemma_field(encoded, 8, 4, item.crc32c_checksum as nat);
    assert(encoded.subrange(12, 16) =~= bytes::le_bytes(item.reserved as nat, 4));
    bytes::lemma_field(encoded, 12, 4, item.reserved as nat);
}

/// The key of a data block's checksum.
pub open spec fn checksum_key(block_address: u64) -> BafsKey {
    BafsKey {
        object_id: BAFS_CHECKSUM_OBJECT_ID,
        item_type: ITEM_TYPE_CHECKSUM_ENTRY,
        offset: block_address,
    }
}

/// The item that records the checksum of `block_data`.
pub open spec fn checksum_item_of(block_address: u64, block_data: Seq<u8>) -> BafsChecksumItem {
    BafsChecksumItem { block_address, crc32c_checksum: checksum::crc32c(block_data), reserved: 0 }
}

/// The outcome of checking `block_data` against what is recorded of it. A block
/// of which nothing is recorded is taken as it is.
pub open spec fn check_of_record(
    record: Result<Option<Seq<u8>>, BafsError>,
    block_address: u64,
    block_data: Seq<u8>,
) -> Result<(), BafsError> {
    match record {
        Err(error) => Err(error),
        Ok(None) => Ok(()),
        Ok(Some(value)) => if value.len() < 16 {
            Err(BafsError::CorruptedStructure)
        } else if checksum_item_from(value).crc32c_checksum == checksum::crc32c(block_data) {
            Ok(())
        } else {
            Err(BafsError::InvalidChecksum { block_address })
        },
    }
}

/// A data block is refused where the record of it is cut off, and where the four bytes
/// behind the address in the record are not its checksum; and in no other case.
pub proof fn law_block_is_checked(
    record: Option<Seq<u8>>,
    block_address: u64,
    block_data: Seq<u8>,
)
    ensures
        match (record, check_of_record(Ok(record), block_address, block_data)) {
            (None, result) => result is Ok,
            (Some(value), Ok(_)) => value.len() >= 16 && value.subrange(8, 12) == bytes::le_bytes(
                checksum::crc32c(block_data) as nat,
                4,
            ),
            (Some(value), Err(BafsError::CorruptedStructure)) => value.len() < 16,
            (Some(value), Err(BafsError::InvalidChecksum { block_address: address })) => {
                &&& value.len() >= 16
                &&& value.subrange(8, 12) != bytes::le_bytes(
                    checksum::crc32c(block_data) as nat,
                    4,
                )
                &&& address == block_address
            },
            (Some(_), Err(_)) => false,
        },
{
    if let Some(value) = record {
        if value.len() >= 16 {
            let expected = checksum::crc32c(block_data) as nat;
            let part = value.subrange(8, 12);
            bytes::lemma_byte_capacities();
            bytes::lemma_le_value_bound(part);
            bytes::lemma_le_round_trip(expected, 4);
            bytes::lemma_le_bytes_of_value(part);
        }
    }
}

/// A data block passes the check against the checksum that was stored of it,
/// and so does no other that differs from it in a single byte.
pub proof fn law_stored_checksum_tells_blocks_apart(
    block_address: u64,
    block_data: Seq<u8>,
    other_data: Seq<u8>,
    position: int,
)
    requires
        other_data.len() == block_data.len(),
        0 <= position < block_data.len(),
        other_data[position] != block_data[position],
        forall|i: int| 0 <= i < block_data.len() && i != position ==> other_data[i] == block_data[i],
    ensures
        ({
            let record = Ok::<Option<Seq<u8>>, BafsError>(
                Some(checksum_item_bytes(checksum_item_of(block_address, block_data))),
            );
            &&& check_of_record(record, block_address, block_data) == Ok::<(), BafsError>(())
            &&& check_of_record(record, block_address, other_data) == Err::<(), BafsError>(
                BafsError::InvalidChecksum { block_address },
            )
        }),
{
    law_checksum_item_round_trip(checksum_item_of(block_address, block_data));
    checksum::law_single_byte_change_is_detected(block_data, other_data, position);
}

fn checksum_item_to_vec(item: &BafsChecksumItem) -> (output: Vec<u8>)
    ensures
        output@ == checksum_item_bytes(*item),
        output@.len() == 16,
{
    let mut output: Vec<u8> = Vec::new();
    bytes::append_le(&mut output, item.block_address, 8);
    bytes::append_le(&mut output, item.crc32c_checksum as u64, 4);
    bytes::append_le(&mut output, item.reserved as u64, 4);
    assert(output@ =~= checksum_item_bytes(*item));
    output
}

/// The checksum item that is encoded in the first 16 bytes of `source`.
pub fn deserialise_checksum_item_from_bytes(source: &[u8]) -> (item: BafsChecksumItem)
    requires
        source@.len() >= 16,
    ensures
        item == checksum_item_from(source@),
{
    proof {
        bytes::lemma_byte_capacities();
    }
    BafsChecksumItem {
        block_address: bytes::read_le(source, 0, 8),
        crc32c_checksum: bytes::read_le(source, 8, 4) as u32,
        reserved: bytes::read_le(source, 12, 4) as u32,
    }
}

/// Record the checksum of a data block. Returns the address of the checksum
/// tree's new root.
pub fn store_data_block_checksum<D: BlockDevice>(
    device: &D,
    dirty_cache: &mut BTreeMap<u64, Vec<u8>>,
    checksum_tree_root_block: u64,
    data_block_address: u64,
    block_data: &[u8],
    generation: u64,
    next_free_block: &mut u64,
    freed_blocks: &mut Vec<u64>,
) -> (result: Result<u64, BafsError>)
    requires
        store::cache_valid(old(dirty_cache)@),
        *old(next_free_block) + 512 <= u64::MAX,
    ensures
        store::stamped(
            final(dirty_cache)@,
            *old(next_free_block) as int,
            *final(next_free_block) as int,
            generation,
        ),
        tree::insertion_outcome(
            device.contents(),
            old(dirty_cache)@,
            final(dirty_cache)@,
            device.reliable(),
            checksum_tree_root_block,
            checksum_key(data_block_address),
            checksum_item_bytes(checksum_item_of(data_block_address, block_data@)),
            *old(next_free_block),
            *final(next_free_block),
            old(freed_blocks)@,
            final(freed_blocks)@,
            result,
        ),
{
    let item = BafsChecksumItem {
        block_address: data_block_address,
        crc32c_checksum: checksum::compute_crc32c(block_data),
        reserved: 0,
    };
    let key = BafsKey::new(BAFS_CHECKSUM_OBJECT_ID, ITEM_TYPE_CHECKSUM_ENTRY, data_block_address);
    let value = checksum_item_to_vec(&item);
    tree::insert_into_tree(
        device,
        dirty_cache,
        checksum_tree_root_block,
        key,
        value,
        generation,
        next_free_block,
        freed_blocks,
    )
}

/// Check `block_data` against the checksum that is recorded of it. A block of
/// which none is recorded is taken as it is.
pub fn verify_data_block_checksum<D: BlockDevice>(
    device: &D,
    dirty_cache: &BTreeMap<u64, Vec<u8>>,
    checksum_tree_root_block: u64,
    data_block_address: u64,
    block_data: &[u8],
) -> (result: Result<(), BafsError>)
    requires
        store::cache_valid(dirty_cache@),
    ensures
        result == check_of_record(
            model::tree_get(
                store::visible_blocks(device.contents(), dirty_cache@),
                checksum_tree_root_block,
                checksum_key(data_block_address),
            ),
            data_block_address,
            block_data@,
        ) || result == Err::<(), BafsError>(BafsError::InputOutputError) && !device.reliable(),
{
    let key = BafsKey::new(BAFS_CHECKSUM_OBJECT_ID, ITEM_TYPE_CHECKSUM_ENTRY, data_block_address);
    match tree::lookup_in_tree(device, dirty_cache, checksum_tree_root_block, key) {
        Err(error) => Err(error),
        Ok(None) => Ok(()),
        Ok(Some(value)) => {
            if value.len() < 16 {
                return Err(BafsError::CorruptedStructure);
            }
            let item = deserialise_checksum_item_from_bytes(value.as_slice());
            if checksum::verify_crc32c(block_data, item.crc32c_checksum) {
                Ok(())
            } else {
                Err(BafsError::InvalidChecksum { block_address: data_block_address })
            }
        },
    }
}

} // verus!
