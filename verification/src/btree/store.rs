//! Blocks as they are visible to one transaction: those that were written since
//! the last commit, over those on the device.

use std::collections::BTreeMap;
use vstd::prelude::*;
use vstd::slice::slice_to_vec;
use crate::block_device::BlockDevice;
use crate::block_io;
use crate::error::BafsError;
use super::node;
use super::node::{BafsTreeNode, NodeModel};

verus! {

broadcast use vstd::std_specs::btree::group_btree_axioms;

/// Every cached block has the size of a block.
pub open spec fn cache_valid(cache: Map<u64, Vec<u8>>) -> bool {
    forall|address: u64| #[trigger]
        cache.contains_key(address) ==> cache[address]@.len() == 4096
}

/// All blocks, where cached blocks hide those on the device.
pub open spec fn visible_blocks(disk: Seq<u8>, cache: Map<u64, Vec<u8>>) -> Map<u64, Seq<u8>> {
    Map::new(
        |address: u64| cache.contains_key(address) || block_io::block_on_disk(disk, address),
        |address: u64|
            if cache.contains_key(address) {
                cache[address]@
            } else {
                block_io::disk_block(disk, address)
            },
    )
}

/// The node at `address`.
pub open spec fn node_at(blocks: Map<u64, Seq<u8>>, address: u64) -> Result<NodeModel, BafsError> {
    if blocks.contains_key(address) {
        node::node_in_block(blocks[address], address)
    } else {
        Err(BafsError::InputOutputError)
    }
}

/// The cache changed at most at the addresses `start .. end`.
pub open spec fn cow_frame(
    before: Map<u64, Vec<u8>>,
    after: Map<u64, Vec<u8>>,
    start: int,
    end: int,
) -> bool {
    forall|address: u64|
        !(start <= address < end) ==> #[trigger] after.contains_key(address)
            == before.contains_key(address) && (before.contains_key(address) ==> after[address]
            == before[address])
}

pub proof fn lemma_cow_frame_joins(
    first: Map<u64, Vec<u8>>,
    second: Map<u64, Vec<u8>>,
    third: Map<u64, Vec<u8>>,
    start: int,
    middle: int,
    end: int,
)
    requires
        cow_frame(first, second, start, middle),
        cow_frame(second, third, middle, end),
        start <= middle <= end,
    ensures
        cow_frame(first, third, start, end),
{
    assert forall|address: u64|
        !(start <= address < end) implies #[trigger] third.contains_key(address)
        == first.contains_key(address) && (first.contains_key(address) ==> third[address]
        == first[address]) by {
        assert(second.contains_key(address) == first.contains_key(address));
    }
}

/// The cache holds nodes at all the addresses `start .. end`, and the transaction
/// `generation` wrote them.
#[verifier::opaque]
pub open spec fn stamped(
    cache: Map<u64, Vec<u8>>,
    start: int,
    end: int,
    generation: u64,
) -> bool {
    forall|address: u64|
        start <= address < end ==> #[trigger] cache.contains_key(address) && node::generation_of(
            cache[address]@,
        ) == generation
}

pub broadcast proof fn lemma_stamped_none(cache: Map<u64, Vec<u8>>, start: int, generation: u64)
    ensures
        #[trigger] stamped(cache, start, start, generation),
{
    reveal(stamped);
}

pub proof fn lemma_stamped_one(cache: Map<u64, Vec<u8>>, address: u64, generation: u64)
    requires
        cache.contains_key(address),
        node::generation_of(cache[address]@) == generation,
    ensures
        stamped(cache, address as int, address + 1, generation),
{
    reveal(stamped);
}

pub proof fn lemma_stamped_joins(
    first: Map<u64, Vec<u8>>,
    second: Map<u64, Vec<u8>>,
    start: int,
    middle: int,
    end: int,
    generation: u64,
)
    requires
        stamped(first, start, middle, generation),
        cow_frame(first, second, middle, end),
        stamped(second, middle, end, generation),
    ensures
        stamped(second, start, end, generation),
{
    reveal(stamped);
    assert forall|address: u64| start <= address < end implies #[trigger] second.contains_key(
        address,
    ) && node::generation_of(second[address]@) == generation by {
        if address < middle {
            assert(first.contains_key(address));
            assert(second.contains_key(address) == first.contains_key(address));
            assert(second[address] == first[address]);
            assert(node::generation_of(first[address]@) == generation);
        } else {
            assert(second.contains_key(address));
            assert(node::generation_of(second[address]@) == generation);
        }
    }
}

/// Read a block: from the cache where it is there, else from the device.
pub fn read_block<D: BlockDevice>(
    device: &D,
    dirty_cache: &BTreeMap<u64, Vec<u8>>,
    block_address: u64,
) -> (result: Result<Vec<u8>, BafsError>)
    ensures
        match result {
            Ok(block) => {
                &&& visible_blocks(device.contents(), dirty_cache@).contains_key(block_address)
                &&& block@ == visible_blocks(device.contents(), dirty_cache@)[block_address]
            },
            Err(error) => {
                &&& error == BafsError::InputOutputError
                &&& !dirty_cache@.contains_key(block_address)
                &&& !(device.reliable() && block_io::block_on_disk(device.contents(), block_address))
            },
        },
{
    match dirty_cache.get(&block_address) {
        Some(cached) => Ok(slice_to_vec(cached.as_slice())),
        None => block_io::read_block_from_device(device, block_address),
    }
}

/// Put a block into the cache, to be written to the device at the next commit.
pub fn write_block_to_cache(
    dirty_cache: &mut BTreeMap<u64, Vec<u8>>,
    block_address: u64,
    block_data: Vec<u8>,
)
    requires
        block_data@.len() == 4096,
    ensures
        final(dirty_cache)@ == old(dirty_cache)@.insert(block_address, block_data),
        cache_valid(old(dirty_cache)@) ==> cache_valid(final(dirty_cache)@),
{
    dirty_cache.insert(block_address, block_data);
}

/// Read the node in a block.
pub fn read_tree_node<D: BlockDevice>(
    device: &D,
    dirty_cache: &BTreeMap<u64, Vec<u8>>,
    block_address: u64,
) -> (result: Result<BafsTreeNode, BafsError>)
    requires
        cache_valid(dirty_cache@),
    ensures
        match result {
            Ok(node) => node_at(visible_blocks(device.contents(), dirty_cache@), block_address)
                == Ok::<NodeModel, BafsError>(node@),
            Err(error) => {
                ||| node_at(visible_blocks(device.contents(), dirty_cache@), block_address) == Err::<
                    NodeModel,
                    BafsError,
                >(error)
                ||| error == BafsError::InputOutputError && !device.reliable()
                    && !dirty_cache@.contains_key(block_address)
            },
        },
{
    match read_block(device, dirty_cache, block_address) {
        Ok(block_data) => node::deserialise_node_from_block(block_data.as_slice(), block_address),
        Err(error) => Err(error),
    }
}

/// Put the block that holds `node` into the cache, at the node's own address.
pub fn write_tree_node_to_cache(dirty_cache: &mut BTreeMap<u64, Vec<u8>>, node: &BafsTreeNode)
    requires
        node::node_fits(node@),
    ensures
        final(dirty_cache)@.contains_key(node.self_block_address),
        final(dirty_cache)@[node.self_block_address]@ == node::node_block_bytes(node@),
        node::generation_of(final(dirty_cache)@[node.self_block_address]@) == node.generation,
        cow_frame(
            old(dirty_cache)@,
            final(dirty_cache)@,
            node.self_block_address as int,
            node.self_block_address + 1,
        ),
        cache_valid(old(dirty_cache)@) ==> cache_valid(final(dirty_cache)@),
        forall|disk: Seq<u8>| #[trigger]
            visible_blocks(disk, final(dirty_cache)@) == visible_blocks(
                disk,
                old(dirty_cache)@,
            ).insert(node.self_block_address, node::node_block_bytes(node@)),
{
    let block_data = node::serialise_node_to_block(node);
    write_block_to_cache(dirty_cache, node.self_block_address, block_data);
    proof {
        node::lemma_generation_of(node@);
        assert forall|disk: Seq<u8>| #[trigger]
            visible_blocks(disk, dirty_cache@) == visible_blocks(disk, old(dirty_cache)@).insert(
                node.self_block_address,
                node::node_block_bytes(node@),
            ) by {
            assert(visible_blocks(disk, dirty_cache@) =~= visible_blocks(
                disk,
                old(dirty_cache)@,
            ).insert(node.self_block_address, node::node_block_bytes(node@)));
        }
    }
}

} // verus!
