//! Writing to files.

use vstd::prelude::*;
use vstd::slice::slice_to_vec;
use crate::block_device::BlockDevice;
use crate::block_io;
use crate::btree::fanout;
use crate::btree::key::BafsKey;
use crate::btree::model;
use crate::btree::node::LeafEntry;
use crate::btree::store;
use crate::btree::tree;
use crate::checksum_tree;
use crate::error::BafsError;
use crate::extent;
use crate::extent::BafsExtentData;
use crate::inode;
use crate::inode::BafsInode;
use crate::state;
use crate::state::VolumeState;
use crate::superblock::BafsSuperblock;
use super::model as volume_model;
use super::{
    check_room, inode_in, room_error, volume_read_inode, BafsVolume, VolumeModel,
    TREE_LEVEL_LIMIT,
};

verus! {

broadcast use {
    crate::btree::store::lemma_stamped_none,
    super::model::lemma_nodes_stamped_none,
};

/// Put a block into the cache, and record its checksum.
#[verifier::spinoff_prover]
#[verifier::rlimit(40)]
fn store_data_block<D: BlockDevice>(
    volume: &mut BafsVolume<D>,
    block_address: u64,
    block_data: Vec<u8>,
) -> (result: Result<(), BafsError>)
    requires
        store::cache_valid(old(volume).dirty_block_cache@),
        block_data@.len() == 4096,
    ensures
        final(volume).device == old(volume).device,
        volume_model::worked_on(old(volume)@, final(volume)@, block_address as int, 1),
        final(volume).superblock == (BafsSuperblock {
            checksum_tree_root_block: final(volume).superblock.checksum_tree_root_block,
            ..old(volume).superblock
        }),
        old(volume)@.in_order() && old(volume)@.state().unused(block_address) ==> {
            let root = old(volume).superblock.checksum_tree_root_block;
            let new_root = final(volume).superblock.checksum_tree_root_block;
            &&& final(volume)@.in_order()
            &&& volume_model::nodes_kept(old(volume)@, final(volume)@)
            &&& match result {
                Ok(_) => {
                    &&& final(volume)@.state() == state::with_data_block(
                        old(volume)@.state(),
                        block_address,
                        block_data@,
                    )
                    &&& final(volume).next_free_block <= old(volume).next_free_block + 2
                        * tree::root_level(old(volume)@.blocks(), root) + 3
                    &&& volume_model::tree_gains(
                        old(volume)@,
                        root,
                        final(volume)@,
                        new_root,
                        1,
                    )
                    &&& tree::root_level(
                        final(volume)@.blocks(),
                        final(volume).superblock.inode_tree_root_block,
                    ) == tree::root_level(
                        old(volume)@.blocks(),
                        old(volume).superblock.inode_tree_root_block,
                    )
                },
                Err(error) => {
                    &&& state::files_kept(old(volume)@.state(), final(volume)@.state())
                    &&& error == BafsError::InputOutputError && !old(volume).device.reliable()
                        || room_error(old(volume)@, root, 2, 3) == Some(error) && (error
                        == BafsError::OutOfSpace || error == BafsError::NotSupported)
                },
            }
        },
{
    let ghost before = volume@;
    let ghost root = volume.superblock.checksum_tree_root_block;
    let generation: u64 = volume.next_transaction_id;
    match check_room(volume, volume.superblock.checksum_tree_root_block, 2, 3) {
        Ok(_) => {},
        Err(error) => {
            proof {
                if before.in_order() {
                    volume_model::lemma_root_present(before, root);
                }
            }
            return Err(error);
        },
    }
    let ghost data = block_data@;
    let ghost cached_block = block_data;
    let checksummed: Vec<u8> = slice_to_vec(block_data.as_slice());
    store::write_block_to_cache(&mut volume.dirty_block_cache, block_address, block_data);
    let ghost cached = volume@;
    assert(volume_model::worked_on(before, cached, block_address as int, 1));
    let ghost ready = before.in_order() && before.state().unused(block_address);
    proof {
        if ready {
            volume_model::lemma_data_block_cached(before, cached, block_address, cached_block);
            state::lemma_with_loose_block(before.state(), block_address, data);
            state::lemma_with_data_block(before.state(), block_address, data);
            volume_model::lemma_root_present(before, root);
            checksum_tree::law_checksum_item_round_trip(
                checksum_tree::checksum_item_of(block_address, data),
            );
            tree::lemma_insert_succeeds(
                cached.blocks(),
                root,
                checksum_tree::checksum_key(block_address),
                checksum_tree::checksum_item_bytes(
                    checksum_tree::checksum_item_of(block_address, data),
                ),
            );
        }
    }
    let summed = checksum_tree::store_data_block_checksum(
        &volume.device,
        &mut volume.dirty_block_cache,
        volume.superblock.checksum_tree_root_block,
        block_address,
        checksummed.as_slice(),
        generation,
        &mut volume.next_free_block,
        &mut volume.superseded_blocks,
    );
    assert(store::cow_frame(
        cached.cache,
        volume@.cache,
        cached.next_free as int,
        volume@.next_free as int,
    ));
    assert(tree::extends(cached.superseded, volume@.superseded));
    assert(volume_model::worked_on(cached, volume@, block_address as int, 1));
    proof {
        volume_model::lemma_worked_on_joins(before, cached, volume@, block_address as int, 1);
    }
    match summed {
        Err(error) => {
            assert(volume@ == cached);
            Err(error)
        },
        Ok(new_root) => {
            volume.superblock.checksum_tree_root_block = new_root;
            proof {
                if ready {
                    volume_model::lemma_checksum_tree_changed(
                        cached,
                        volume@,
                        checksum_tree::checksum_key(block_address),
                        checksum_tree::checksum_item_bytes(
                            checksum_tree::checksum_item_of(block_address, data),
                        ),
                    );
                    volume_model::lemma_nodes_added(cached, volume@);
                    volume_model::lemma_nodes_kept(cached, volume@);
                    volume_model::lemma_nodes_kept_joins(before, cached, volume@);
                    volume_model::lemma_kept_tree_gains_nothing(before, cached, root);
                    fanout::lemma_gains_join(
                        before.blocks(),
                        root,
                        cached.blocks(),
                        root,
                        volume@.blocks(),
                        new_root,
                        before.next_free as int,
                        cached.next_free as int,
                        volume@.next_free as int,
                        0,
                        1,
                    );
                    assert(cached.tree_ready(cached.superblock.inode_tree_root_block));
                    assert(volume@.state() == state::with_data_block(
                        before.state(),
                        block_address,
                        data,
                    ));
                }
            }
            Ok(())
        },
    }
}

/// The tree of checksums does not get higher than `highest` where `count` more of
/// them are recorded.
pub open spec fn stays_below(volume: VolumeModel, count: nat, highest: nat) -> bool {
    exists|base: nat, insertions: nat| #[trigger]
        volume_model::tree_grown(
            volume,
            volume.superblock.checksum_tree_root_block,
            base,
            insertions,
        ) && tree::level_bound(base, insertions + count) <= highest
}

/// At most so many tree nodes are written where `count` data blocks are written and
/// the tree of checksums gets no higher than `highest`.
pub open spec fn data_cost(volume: VolumeModel, count: nat, highest: nat) -> nat {
    let free_level = tree::root_level(
        volume.blocks(),
        volume.superblock.free_extent_tree_root_block,
    );
    3 * free_level + 4 + count * (2 * highest + 3)
}

/// There are enough blocks to write `count` data blocks, and `extra` nodes besides.
pub open spec fn room_for_data(
    volume: VolumeModel,
    count: nat,
    highest: nat,
    extra: nat,
) -> bool {
    let free_root = volume.superblock.free_extent_tree_root_block;
    &&& stays_below(volume, count, highest)
    &&& count <= u64::MAX
    &&& state::has_free_run(volume.state().free, count as u64)
    &&& tree::root_level(volume.blocks(), free_root) < TREE_LEVEL_LIMIT
    &&& highest < TREE_LEVEL_LIMIT
    &&& volume.next_free + data_cost(volume, count, highest) + extra <= volume.node_area_end()
}

/// The nodes that were written where the first `index` of `count` data blocks were.
spec fn cheap_so_far(before: VolumeModel, current: VolumeModel, count: nat, index: nat) -> bool {
    let free_level = tree::root_level(
        before.blocks(),
        before.superblock.free_extent_tree_root_block,
    );
    forall|highest: nat| #[trigger]
        stays_below(before, count, highest) ==> current.next_free <= before.next_free + 3
            * free_level + 4 + index * (2 * highest + 3)
}

/// The level of the tree of checksums while data blocks are written.
proof fn lemma_below(
    before: VolumeModel,
    current: VolumeModel,
    count: nat,
    index: nat,
    highest: nat,
)
    requires
        stays_below(before, count, highest),
        current.in_order(),
        index <= count,
        volume_model::tree_gains(
            before,
            before.superblock.checksum_tree_root_block,
            current,
            current.superblock.checksum_tree_root_block,
            index,
        ),
    ensures
        tree::root_level(current.blocks(), current.superblock.checksum_tree_root_block)
            <= highest,
{
    let (base, insertions) = choose|base: nat, insertions: nat| #[trigger]
        volume_model::tree_grown(
            before,
            before.superblock.checksum_tree_root_block,
            base,
            insertions,
        ) && tree::level_bound(base, insertions + count) <= highest;
    volume_model::lemma_gained_level(
        before,
        before.superblock.checksum_tree_root_block,
        current,
        current.superblock.checksum_tree_root_block,
        base,
        insertions,
        index,
    );
    fanout::lemma_levels_gained_monotone(insertions + index, insertions + count);
}

/// One more data block was written.
proof fn lemma_cheap(
    before: VolumeModel,
    earlier: VolumeModel,
    current: VolumeModel,
    count: nat,
    index: nat,
)
    requires
        cheap_so_far(before, earlier, count, index),
        index < count,
        earlier.in_order(),
        volume_model::tree_gains(
            before,
            before.superblock.checksum_tree_root_block,
            earlier,
            earlier.superblock.checksum_tree_root_block,
            index,
        ),
        current.next_free <= earlier.next_free + 2 * tree::root_level(
            earlier.blocks(),
            earlier.superblock.checksum_tree_root_block,
        ) + 3,
    ensures
        cheap_so_far(before, current, count, index + 1),
{
    assert forall|highest: nat| #[trigger] stays_below(before, count, highest) implies
        current.next_free <= before.next_free + 3 * tree::root_level(
        before.blocks(),
        before.superblock.free_extent_tree_root_block,
    ) + 4 + (index + 1) * (2 * highest + 3) by {
        lemma_below(before, earlier, count, index, highest);
        lemma_products(index as int, count as int, (2 * highest + 3) as int);
    }
}

/// A data block does not fit only where not all of them do.
proof fn lemma_does_not_fit(
    before: VolumeModel,
    earlier: VolumeModel,
    count: nat,
    index: nat,
    error: BafsError,
)
    requires
        cheap_so_far(before, earlier, count, index),
        index < count,
        earlier.in_order(),
        earlier.node_area_end() == before.node_area_end(),
        volume_model::tree_gains(
            before,
            before.superblock.checksum_tree_root_block,
            earlier,
            earlier.superblock.checksum_tree_root_block,
            index,
        ),
        room_error(earlier, earlier.superblock.checksum_tree_root_block, 2, 3) == Some(error),
    ensures
        forall|highest: nat| !#[trigger] room_for_data(before, count, highest, 0),
{
    volume_model::lemma_root_present(earlier, earlier.superblock.checksum_tree_root_block);
    assert forall|highest: nat| !#[trigger] room_for_data(before, count, highest, 0) by {
        if room_for_data(before, count, highest, 0) {
            lemma_below(before, earlier, count, index, highest);
            lemma_products(index as int, count as int, (2 * highest + 3) as int);
        }
    }
}

/// The count of free blocks once `count` of them are taken.
pub open spec fn fewer_free_blocks(free_block_count: u64, count: nat) -> u64 {
    if free_block_count < count {
        0
    } else {
        (free_block_count - count) as u64
    }
}

/// The error with which taking `count` blocks from the free ones fails, if it does.
pub open spec fn space_error(volume: VolumeModel, count: u64) -> Option<BafsError> {
    let root = volume.superblock.free_extent_tree_root_block;
    match room_error(volume, root, 3, 4) {
        Some(error) => Some(error),
        None => match extent::allocation_choice(volume.blocks(), root, count) {
            Err(error) => Some(error),
            Ok(_) => None,
        },
    }
}

/// Take `count` blocks from the free ones.
#[verifier::spinoff_prover]
#[verifier::rlimit(40)]
fn take_free_blocks<D: BlockDevice>(volume: &mut BafsVolume<D>, count: u64) -> (result: Result<
    u64,
    BafsError,
>)
    requires
        store::cache_valid(old(volume).dirty_block_cache@),
        count > 0,
    ensures
        final(volume).device == old(volume).device,
        volume_model::worked_on(old(volume)@, final(volume)@, 0, 0),
        result is Err ==> final(volume)@.superblock == old(volume)@.superblock,
        space_error(old(volume)@, count) matches Some(error) ==> result == Err::<u64, BafsError>(
            error,
        ) || result == Err::<u64, BafsError>(BafsError::InputOutputError) && !old(
            volume,
        ).device.reliable(),
        old(volume)@.in_order() ==> {
            let before = old(volume)@;
            let after = final(volume)@;
            &&& volume_model::nodes_kept(before, after)
            &&& match result {
                Ok(first) => {
                    &&& after.in_order()
                    &&& exists|item: LeafEntry|
                        state::is_first_fit(before.state().free, item, count) && first
                            == item.key.offset && after.state() == #[trigger] state::with_blocks_taken(
                            before.state(),
                            item,
                            count,
                        )
                    &&& after.superblock == (BafsSuperblock {
                        free_extent_tree_root_block: after.superblock.free_extent_tree_root_block,
                        free_block_count: fewer_free_blocks(
                            before.superblock.free_block_count,
                            count as nat,
                        ),
                        ..before.superblock
                    })
                    &&& after.next_free <= before.next_free + 3 * tree::root_level(
                        before.blocks(),
                        before.superblock.free_extent_tree_root_block,
                    ) + 4
                    &&& tree::root_level(
                        after.blocks(),
                        after.superblock.free_extent_tree_root_block,
                    ) <= tree::root_level(
                        before.blocks(),
                        before.superblock.free_extent_tree_root_block,
                    ) + 1
                    &&& volume_model::trees_gain(before, after, 0, 1, 0)
                    &&& forall|root: u64| #[trigger]
                        before.tree_ready(root) ==> tree::root_level(after.blocks(), root)
                            == tree::root_level(before.blocks(), root)
                },
                Err(error) => {
                    &&& after.in_order()
                    &&& after.state() == before.state()
                    &&& error == BafsError::InputOutputError && !old(volume).device.reliable()
                        || error == BafsError::OutOfSpace && (!state::has_free_run(
                        before.state().free,
                        count,
                    ) || room_error(
                        before,
                        before.superblock.free_extent_tree_root_block,
                        3,
                        4,
                    ) == Some(error)) || error == BafsError::NotSupported && room_error(
                        before,
                        before.superblock.free_extent_tree_root_block,
                        3,
                        4,
                    ) == Some(error)
                },
            }
        },
{
    let ghost before = volume@;
    let ghost root = volume.superblock.free_extent_tree_root_block;
    let generation: u64 = volume.next_transaction_id;
    proof {
        if before.in_order() {
            volume_model::lemma_root_present(before, root);
        }
    }
    match check_room(volume, volume.superblock.free_extent_tree_root_block, 3, 4) {
        Ok(_) => {},
        Err(error) => {
            return Err(error);
        },
    }
    proof {
        if before.in_order() {
            extent::law_allocation_is_first_fit(before.blocks(), root, count);
            assert(tree::tree_ready(
                before.blocks(),
                root,
                before.node_area_start(),
                before.next_free as int,
            ));
        }
    }
    match extent::allocate_blocks(
        &volume.device,
        &mut volume.dirty_block_cache,
        volume.superblock.free_extent_tree_root_block,
        count,
        generation,
        &mut volume.next_free_block,
        &mut volume.superseded_blocks,
    ) {
        Err(error) => {
            proof {
                if before.in_order() {
                    let after = volume@;
                    volume_model::lemma_nodes_added(before, after);
                    volume_model::lemma_nodes_kept(before, after);
                    assert(before.tree_ready(before.superblock.inode_tree_root_block));
                    assert(before.tree_ready(before.superblock.free_extent_tree_root_block));
                    assert(before.tree_ready(before.superblock.checksum_tree_root_block));
                }
            }
            Err(error)
        },
        Ok((first, new_root)) => {
            volume.superblock.free_extent_tree_root_block = new_root;
            volume.superblock.free_block_count = if volume.superblock.free_block_count < count {
                0
            } else {
                volume.superblock.free_block_count - count
            };
            proof {
                if before.in_order() {
                    let after = volume@;
                    let item = extent::allocation_choice(before.blocks(), root, count)->Ok_0;
                    assert(before.state().free.contains_key(item.key));
                    volume_model::lemma_free_tree_changed(before, after);
                    state::lemma_take_blocks(before.state(), item, count);
                    assert(state::is_first_fit(before.state().free, item, count));
                    assert(after.state() == state::with_blocks_taken(before.state(), item, count));
                    volume_model::lemma_nodes_added(before, after);
                    volume_model::lemma_nodes_kept(before, after);
                    volume_model::lemma_trees_gain(before, after, 0, 1, 0);
                }
            }
            Ok(first)
        },
    }
}

/// One more share of a product is within it.
pub proof fn lemma_products(index: int, count: int, factor: int)
    requires
        0 <= index < count,
        0 <= factor,
    ensures
        (index + 1) * factor == index * factor + factor,
        (index + 1) * factor <= count * factor,
{
    assert((index + 1) * factor == index * factor + factor) by (nonlinear_arith);
    assert((index + 1) * factor <= count * factor) by (nonlinear_arith)
        requires
            index + 1 <= count,
            0 <= factor,
    ;
}

/// No file uses any of the `count` blocks from `first` on, which are data blocks.
pub open spec fn free_in(volume: VolumeModel, first: int, count: nat) -> bool {
    &&& volume.node_area_end() <= first
    &&& first + count <= volume.superblock.total_block_count
    &&& state::spare_blocks(volume.state(), first, count)
}

/// Some blocks were written to, at most `count`, that no file uses.
pub open spec fn written_loosely(
    before: VolumeModel,
    after: VolumeModel,
    first: int,
    written: nat,
    count: nat,
) -> bool {
    &&& volume_model::worked_on(before, after, first, written)
    &&& written <= count
    &&& before.in_order() && written > 0 ==> free_in(before, first, written)
}

/// Take free blocks, write `data` to them and record their checksums. Returns
/// the first of the blocks.
#[verifier::spinoff_prover]
#[verifier::rlimit(60)]
fn allocate_and_write_data_blocks<D: BlockDevice>(
    volume: &mut BafsVolume<D>,
    data: &[u8],
) -> (result: Result<u64, BafsError>)
    requires
        store::cache_valid(old(volume).dirty_block_cache@),
    ensures
        final(volume).device == old(volume).device,
        exists|first: int, written: nat| #[trigger]
            written_loosely(
                old(volume)@,
                final(volume)@,
                first,
                written,
                block_io::blocks_for(data@.len()),
            ),
        data@.len() > 0 && block_io::blocks_for(data@.len()) <= u64::MAX ==> (space_error(
            old(volume)@,
            block_io::blocks_for(data@.len()) as u64,
        ) matches Some(error) ==> result == Err::<u64, BafsError>(error) || result == Err::<
            u64,
            BafsError,
        >(BafsError::InputOutputError) && !old(volume).device.reliable()),
        old(volume)@.in_order() ==> {
            let before = old(volume)@;
            let after = final(volume)@;
            let count = block_io::blocks_for(data@.len());
            &&& after.in_order()
            &&& volume_model::nodes_kept(before, after)
            &&& match result {
                Ok(first) => {
                    &&& data@.len() > 0
                    &&& exists|item: LeafEntry|
                        state::is_first_fit(before.state().free, item, count as u64) && first
                            == item.key.offset && after.state() == state::with_data(
                            #[trigger] state::with_blocks_taken(
                                before.state(),
                                item,
                                count as u64,
                            ),
                            first,
                            data@,
                            count,
                        )
                    &&& after.superblock.inode_tree_root_block
                        == before.superblock.inode_tree_root_block
                    &&& after.superblock.free_block_count == fewer_free_blocks(
                        before.superblock.free_block_count,
                        count,
                    )
                    &&& tree::root_level(
                        after.blocks(),
                        after.superblock.inode_tree_root_block,
                    ) == tree::root_level(
                        before.blocks(),
                        before.superblock.inode_tree_root_block,
                    )
                    &&& tree::root_level(
                        after.blocks(),
                        after.superblock.free_extent_tree_root_block,
                    ) <= tree::root_level(
                        before.blocks(),
                        before.superblock.free_extent_tree_root_block,
                    ) + 1
                    &&& volume_model::trees_gain(before, after, 0, 1, count)
                    &&& forall|highest: nat| #[trigger]
                        stays_below(before, count, highest) ==> after.next_free
                            <= before.next_free + data_cost(before, count, highest)
                },
                Err(error) => {
                    &&& state::files_kept(before.state(), after.state())
                    &&& if data@.len() == 0 {
                        error == BafsError::InvalidArgument && after == before
                    } else {
                        error == BafsError::InputOutputError && !old(volume).device.reliable() || (
                        error == BafsError::OutOfSpace || error == BafsError::NotSupported) && (
                        forall|highest: nat| !#[trigger] room_for_data(before, count, highest, 0))
                    }
                },
            }
        },
{
    let ghost before = volume@;
    let length: usize = data.len();
    if length == 0 {
        assert(written_loosely(before, volume@, 0, 0, block_io::blocks_for(data@.len())));
        return Err(BafsError::InvalidArgument);
    }
    let block_count: u64 = (length as u64 - 1) / 4096 + 1;
    let ghost count = block_count as nat;
    let ghost checksum_root = before.superblock.checksum_tree_root_block;
    assert(count == block_io::blocks_for(data@.len()));
    let first: u64 = match take_free_blocks(volume, block_count) {
        Ok(first) => first,
        Err(error) => {
            assert(written_loosely(before, volume@, 0, 0, count));
            proof {
                if before.in_order() {
                    volume_model::lemma_root_present(
                        before,
                        before.superblock.free_extent_tree_root_block,
                    );
                    assert forall|highest: nat| error
                        != BafsError::InputOutputError implies !#[trigger] room_for_data(
                        before,
                        count,
                        highest,
                        0,
                    ) by {
                        assert(count * (2 * highest + 3) >= 0);
                    }
                }
            }
            return Err(error);
        },
    };
    let ghost taken = volume@;
    proof {
        volume_model::lemma_worked_on_more(before, taken, 0, 0, first as int, count);
    }
    let ghost item = choose|item: LeafEntry|
        state::is_first_fit(before.state().free, item, block_count) && first == item.key.offset
            && taken.state() == #[trigger] state::with_blocks_taken(
            before.state(),
            item,
            block_count,
        );
    proof {
        if before.in_order() {
            state::lemma_take_blocks(before.state(), item, block_count);
            assert(before.tree_ready(checksum_root));
            assert(cheap_so_far(before, taken, count, 0)) by {
                assert forall|highest: nat| #[trigger] stays_below(before, count, highest) implies 0
                    * (2 * highest + 3) == 0 by {}
            }
            assert(before.tree_ready(before.superblock.inode_tree_root_block));
            assert(state::files_kept(before.state(), taken.state()));
            assert(free_in(before, first as int, count)) by {
                assert forall|address: u64| #[trigger]
                    before.state().is_data_block(address) && first <= address < first
                        + count implies (forall|key: BafsKey|
                    !#[trigger] before.state().uses(key, address)) by {
                    assert(taken.state().unused(address));
                    assert forall|key: BafsKey| !#[trigger] before.state().uses(key, address) by {
                        assert(!taken.state().uses(key, address));
                    }
                }
            }
        }
    }
    if first > u64::MAX - block_count {
        assert(written_loosely(before, volume@, first as int, count, count));
        return Err(BafsError::CorruptedStructure);
    }
    let mut index: u64 = 0;
    while index < block_count
        invariant
            index <= block_count,
            block_count == (length as u64 - 1) / 4096 + 1,
            count == block_count,
            count == block_io::blocks_for(data@.len()),
            length == data@.len(),
            length > 0,
            first + block_count <= u64::MAX,
            store::cache_valid(volume.dirty_block_cache@),
            volume.device == old(volume).device,
            before == old(volume)@,
            before.in_order() ==> free_in(before, first as int, count),
            space_error(before, block_count) is None,
            volume_model::worked_on(before, volume@, first as int, count),
            before.in_order() ==> {
                &&& volume@.in_order()
                &&& volume_model::nodes_kept(before, volume@)
                &&& taken.state().ok()
                &&& state::files_kept(before.state(), taken.state())
                &&& volume@.state() == state::with_data(
                    taken.state(),
                    first,
                    data@,
                    index as nat,
                )
                &&& forall|address: u64|
                    first <= address < first + block_count ==> #[trigger] taken.state().unused(
                        address,
                    )
                &&& volume.superblock.inode_tree_root_block
                    == before.superblock.inode_tree_root_block
                &&& volume.superblock.free_block_count == fewer_free_blocks(
                    before.superblock.free_block_count,
                    count,
                )
                &&& tree::root_level(
                    volume@.blocks(),
                    volume.superblock.inode_tree_root_block,
                ) == tree::root_level(before.blocks(), before.superblock.inode_tree_root_block)
                &&& tree::root_level(
                    volume@.blocks(),
                    volume.superblock.free_extent_tree_root_block,
                ) <= tree::root_level(
                    before.blocks(),
                    before.superblock.free_extent_tree_root_block,
                ) + 1
                &&& volume_model::trees_gain(before, volume@, 0, 1, index as nat)
                &&& cheap_so_far(before, volume@, count, index as nat)
            },
        decreases block_count - index,
    {
        assert(4096 * index < length);
        let block_data = block_io::block_at(data, index as usize);
        let block_address: u64 = first + index;
        let ghost earlier = volume@;
        proof {
            if before.in_order() {
                state::lemma_with_data(taken.state(), first, data@, index as nat, count);
                assert(earlier.state().unused(block_address));
            }
        }
        let stored = store_data_block(volume, block_address, block_data);
        proof {
            volume_model::lemma_worked_on_more(
                earlier,
                volume@,
                block_address as int,
                1,
                first as int,
                count,
            );
            volume_model::lemma_worked_on_joins(before, earlier, volume@, first as int, count);
        }
        match stored {
            Ok(_) => {},
            Err(error) => {
                proof {
                    if before.in_order() {
                        volume_model::lemma_nodes_kept_joins(before, earlier, volume@);
                        state::lemma_files_kept_joins(
                            before.state(),
                            taken.state(),
                            earlier.state(),
                        );
                        state::lemma_files_kept_joins(
                            before.state(),
                            earlier.state(),
                            volume@.state(),
                        );
                        if error != BafsError::InputOutputError {
                            lemma_does_not_fit(before, earlier, count, index as nat, error);
                        }
                    }
                }
                assert(written_loosely(before, volume@, first as int, count, count));
                return Err(error);
            },
        }
        proof {
            if before.in_order() {
                volume_model::lemma_nodes_kept_joins(before, earlier, volume@);
                volume_model::lemma_trees_gain(earlier, volume@, 0, 0, 1);
                volume_model::lemma_trees_gain_join(
                    before,
                    earlier,
                    volume@,
                    0,
                    1,
                    index as nat,
                    0,
                    0,
                    1,
                );
                lemma_cheap(before, earlier, volume@, count, index as nat);
            }
        }
        index = index + 1;
    }
    assert(written_loosely(before, volume@, first as int, count, count));
    Ok(first)
}

/// The blocks of the nodes on the way to a record of the inode tree.
pub open spec fn path_in_inode_tree(volume: VolumeModel, key: BafsKey) -> Seq<u64> {
    model::path_to(
        volume.blocks(),
        volume.superblock.inode_tree_root_block,
        model::root_span(),
        key.rank(),
    )
}

/// What has to hold for a record to be put into the inode tree: room for the new
/// nodes, and a record that may stand there.
pub open spec fn record_admitted(volume: VolumeModel, key: BafsKey, value: Seq<u8>) -> bool {
    let level = tree::root_level(volume.blocks(), volume.superblock.inode_tree_root_block);
    &&& volume.in_order()
    &&& state::with_record(volume.state(), key, value).ok()
    &&& value.len() <= tree::max_value_size()
    &&& value.len() <= tree::small_value_size() || tree::insert_error(
        volume.blocks(),
        volume.superblock.inode_tree_root_block,
        key,
        value,
    ) is None
    &&& level + 1 < model::level_limit()
    &&& volume.next_free + 2 * level + 3 <= volume.node_area_end()
}

/// A record was put into the inode tree.
pub open spec fn record_put(
    before: VolumeModel,
    after: VolumeModel,
    key: BafsKey,
    value: Seq<u8>,
) -> bool {
    let level = tree::root_level(before.blocks(), before.superblock.inode_tree_root_block);
    &&& after.in_order()
    &&& after.state() == state::with_record(before.state(), key, value)
    &&& after.superseded == before.superseded + path_in_inode_tree(before, key)
    &&& volume_model::nodes_written(before, after)
    &&& after.superblock == (BafsSuperblock {
        inode_tree_root_block: after.superblock.inode_tree_root_block,
        ..before.superblock
    })
    &&& after.next_free <= before.next_free + 2 * level + 3
    &&& tree::root_level(after.blocks(), after.superblock.inode_tree_root_block) <= level + 1
    &&& volume_model::trees_gain(before, after, 1, 0, 0)
}

/// The outcome of an insertion into the inode tree, for the volume.
pub proof fn lemma_record_put(
    before: VolumeModel,
    after: VolumeModel,
    reliable: bool,
    key: BafsKey,
    value: Seq<u8>,
    result: Result<u64, BafsError>,
)
    requires
        record_admitted(before, key, value),
        tree::insertion_outcome(
            before.disk,
            before.cache,
            after.cache,
            reliable,
            before.superblock.inode_tree_root_block,
            key,
            value,
            before.next_free,
            after.next_free,
            before.superseded,
            after.superseded,
            result,
        ),
        store::stamped(
            after.cache,
            before.next_free as int,
            after.next_free as int,
            before.next_transaction,
        ),
        volume_model::same_session(before, after),
        result matches Ok(new_root) ==> after.superblock == (BafsSuperblock {
            inode_tree_root_block: new_root,
            ..before.superblock
        }),
        result is Err ==> after.superblock == before.superblock,
    ensures
        match result {
            Ok(_) => record_put(before, after, key, value),
            Err(error) => error == BafsError::InputOutputError && !reliable && after == before,
        },
{
    let root = before.superblock.inode_tree_root_block;
    if value.len() <= tree::small_value_size() {
        tree::lemma_insert_succeeds(before.blocks(), root, key, value);
    }
    if result is Ok {
        volume_model::lemma_inode_tree_changed(before, after, key, Some(value));
        volume_model::lemma_nodes_kept(before, after);
        volume_model::lemma_trees_gain(before, after, 1, 0, 0);
    }
}

/// A record was removed from the inode tree.
pub open spec fn record_removed(before: VolumeModel, after: VolumeModel, key: BafsKey) -> bool {
    let level = tree::root_level(before.blocks(), before.superblock.inode_tree_root_block);
    &&& after.in_order()
    &&& after.state() == state::without_record(before.state(), key)
    &&& after.superseded == before.superseded + path_in_inode_tree(before, key)
    &&& volume_model::nodes_written(before, after)
    &&& after.superblock == (BafsSuperblock {
        inode_tree_root_block: after.superblock.inode_tree_root_block,
        ..before.superblock
    })
    &&& after.next_free <= before.next_free + level + 1
    &&& tree::root_level(after.blocks(), after.superblock.inode_tree_root_block) == level
    &&& volume_model::trees_gain(before, after, 0, 0, 0)
}

/// The outcome of a deletion from the inode tree, for the volume.
pub proof fn lemma_record_removed(
    before: VolumeModel,
    after: VolumeModel,
    reliable: bool,
    key: BafsKey,
    result: Result<u64, BafsError>,
)
    requires
        before.in_order(),
        before.state().inodes.contains_key(key),
        before.next_free + tree::root_level(
            before.blocks(),
            before.superblock.inode_tree_root_block,
        ) + 1 <= before.node_area_end(),
        tree::deletion_outcome(
            before.disk,
            before.cache,
            after.cache,
            reliable,
            before.superblock.inode_tree_root_block,
            key,
            before.next_free,
            after.next_free,
            before.superseded,
            after.superseded,
            result,
        ),
        store::stamped(
            after.cache,
            before.next_free as int,
            after.next_free as int,
            before.next_transaction,
        ),
        volume_model::same_session(before, after),
        result matches Ok(new_root) ==> after.superblock == (BafsSuperblock {
            inode_tree_root_block: new_root,
            ..before.superblock
        }),
        result is Err ==> after.superblock == before.superblock,
    ensures
        match result {
            Ok(_) => record_removed(before, after, key),
            Err(error) => error == BafsError::InputOutputError && !reliable && after == before,
        },
{
    let root = before.superblock.inode_tree_root_block;
    tree::lemma_delete_succeeds(before.blocks(), root, key);
    if result is Ok {
        volume_model::lemma_inode_tree_changed(before, after, key, None);
        state::lemma_without_record(before.state(), key);
        volume_model::lemma_nodes_kept(before, after);
        volume_model::lemma_trees_gain(before, after, 0, 0, 0);
    }
}

/// Write an inode to the inode tree.
pub(super) fn volume_write_inode<D: BlockDevice>(
    volume: &mut BafsVolume<D>,
    inode: &BafsInode,
) -> (result: Result<(), BafsError>)
    requires
        store::cache_valid(old(volume).dirty_block_cache@),
        old(volume).next_free_block + 512 <= u64::MAX,
    ensures
        store::cache_valid(final(volume).dirty_block_cache@),
        final(volume).device == old(volume).device,
        final(volume).superblock == (BafsSuperblock {
            inode_tree_root_block: final(volume).superblock.inode_tree_root_block,
            ..old(volume).superblock
        }),
        volume_model::worked_on(old(volume)@, final(volume)@, 0, 0),
        tree::insert_error(
            old(volume)@.blocks(),
            old(volume).superblock.inode_tree_root_block,
            inode::inode_key(inode.inode_number),
            inode::inode_bytes(*inode),
        ) matches Some(error) ==> result == Err::<(), BafsError>(error) || result == Err::<
            (),
            BafsError,
        >(BafsError::InputOutputError) && !old(volume).device.reliable(),
        final(volume).next_free_block <= old(volume).next_free_block + 2 * 255 + 3,
        ({
            let key = inode::inode_key(inode.inode_number);
            let value = inode::inode_bytes(*inode);
            record_admitted(old(volume)@, key, value) ==> match result {
                Ok(_) => record_put(old(volume)@, final(volume)@, key, value),
                Err(error) => error == BafsError::InputOutputError && !old(
                    volume,
                ).device.reliable() && final(volume)@ == old(volume)@,
            }
        }),
{
    let ghost before = volume@;
    let generation: u64 = volume.next_transaction_id;
    let written = inode::write_inode_to_tree(
        &volume.device,
        &mut volume.dirty_block_cache,
        volume.superblock.inode_tree_root_block,
        inode,
        generation,
        &mut volume.next_free_block,
        &mut volume.superseded_blocks,
    );
    let result = match written {
        Ok(new_root) => {
            volume.superblock.inode_tree_root_block = new_root;
            Ok(())
        },
        Err(error) => Err(error),
    };
    proof {
        let key = inode::inode_key(inode.inode_number);
        let value = inode::inode_bytes(*inode);
        if record_admitted(before, key, value) {
            lemma_record_put(
                before,
                volume@,
                volume.device.reliable(),
                key,
                value,
                written,
            );
        }
    }
    result
}

/// Write a file extent to the inode tree.
fn volume_write_extent<D: BlockDevice>(
    volume: &mut BafsVolume<D>,
    inode_number: u64,
    extent: &BafsExtentData,
) -> (result: Result<(), BafsError>)
    requires
        store::cache_valid(old(volume).dirty_block_cache@),
        old(volume).next_free_block + 512 <= u64::MAX,
    ensures
        store::cache_valid(final(volume).dirty_block_cache@),
        final(volume).device == old(volume).device,
        final(volume).superblock == (BafsSuperblock {
            inode_tree_root_block: final(volume).superblock.inode_tree_root_block,
            ..old(volume).superblock
        }),
        volume_model::worked_on(old(volume)@, final(volume)@, 0, 0),
        final(volume).next_free_block <= old(volume).next_free_block + 2 * 255 + 3,
        ({
            let key = extent::extent_key(inode_number, extent.logical_byte_offset);
            let value = extent::extent_bytes(*extent);
            record_admitted(old(volume)@, key, value) ==> match result {
                Ok(_) => record_put(old(volume)@, final(volume)@, key, value),
                Err(error) => error == BafsError::InputOutputError && !old(
                    volume,
                ).device.reliable() && final(volume)@ == old(volume)@,
            }
        }),
{
    let ghost before = volume@;
    let generation: u64 = volume.next_transaction_id;
    let written = extent::write_extent_data_to_inode_tree(
        &volume.device,
        &mut volume.dirty_block_cache,
        volume.superblock.inode_tree_root_block,
        inode_number,
        extent,
        generation,
        &mut volume.next_free_block,
        &mut volume.superseded_blocks,
    );
    let result = match written {
        Ok(new_root) => {
            volume.superblock.inode_tree_root_block = new_root;
            Ok(())
        },
        Err(error) => Err(error),
    };
    proof {
        let key = extent::extent_key(inode_number, extent.logical_byte_offset);
        let value = extent::extent_bytes(*extent);
        if record_admitted(before, key, value) {
            lemma_record_put(
                before,
                volume@,
                volume.device.reliable(),
                key,
                value,
                written,
            );
        }
    }
    result
}

/// The inode of a file after `count` blocks were added to it, to hold the bytes
/// up to `end`.
pub open spec fn grown_inode(
    inode: BafsInode,
    end: int,
    count: nat,
    generation: u64,
) -> BafsInode {
    BafsInode {
        file_size_in_bytes: if end > inode.file_size_in_bytes {
            end as u64
        } else {
            inode.file_size_in_bytes
        },
        allocated_block_count: (inode.allocated_block_count + count) as u64,
        generation,
        ..inode
    }
}

/// `data` was written to a file at `offset`: to the blocks of the free extent
/// `item`, as an extent of its own.
pub open spec fn file_written(
    before: VolumeState,
    after: VolumeState,
    inode_number: u64,
    offset: u64,
    data: Seq<u8>,
    generation: u64,
    item: LeafEntry,
) -> bool {
    let count = block_io::blocks_for(data.len());
    let first = item.key.offset;
    let extent = BafsExtentData {
        logical_byte_offset: offset,
        first_disk_block: first,
        block_count: count as u64,
        extent_flags: 0,
        reserved: 0,
    };
    let inode = inode::inode_from(before.inodes[inode::inode_key(inode_number)]);
    let stored = state::with_data(
        state::with_blocks_taken(before, item, count as u64),
        first,
        data,
        count,
    );
    &&& state::is_first_fit(before.free, item, count as u64)
    &&& after == state::with_record(
        state::with_record(
            stored,
            extent::extent_key(inode_number, offset),
            extent::extent_bytes(extent),
        ),
        inode::inode_key(inode_number),
        inode::inode_bytes(grown_inode(inode, offset + data.len(), count, generation)),
    )
}

/// The error with which writing to a file is refused, whatever room there is.
pub open spec fn write_refusal(volume: VolumeModel, inode_number: u64, length: nat) -> Option<
    BafsError,
> {
    match inode_in(volume, inode_number) {
        Err(error) => Some(error),
        Ok(inode) => if !inode.spec_is_regular_file() {
            Some(BafsError::NotARegularFile)
        } else if inode.allocated_block_count + block_io::blocks_for(length) > u64::MAX {
            Some(BafsError::CorruptedStructure)
        } else {
            None
        },
    }
}

/// There is room for one change of the inode tree.
pub open spec fn room_for_record(volume: VolumeModel) -> bool {
    let level = tree::root_level(volume.blocks(), volume.superblock.inode_tree_root_block);
    &&& level + 1 < model::level_limit()
    &&& volume.next_free + 2 * level + 3 <= volume.node_area_end()
}

/// At most so many tree nodes are written where `count` data blocks are written to
/// a file and the tree of checksums gets no higher than `highest`.
pub open spec fn write_cost(volume: VolumeModel, count: nat, highest: nat) -> nat {
    data_cost(volume, count, highest) + 4 * tree::root_level(
        volume.blocks(),
        volume.superblock.inode_tree_root_block,
    ) + 8
}

/// There are enough blocks to write `count` data blocks to a file, where the tree of
/// checksums gets no higher than `highest`.
pub open spec fn room_below(volume: VolumeModel, count: nat, highest: nat) -> bool {
    let level = tree::root_level(volume.blocks(), volume.superblock.inode_tree_root_block);
    &&& level < TREE_LEVEL_LIMIT
    &&& room_for_data(volume, count, highest, 4 * level + 8)
}

/// There are enough blocks to write `count` data blocks to a file.
pub open spec fn room_for_write(volume: VolumeModel, count: nat) -> bool {
    exists|highest: nat| #[trigger] room_below(volume, count, highest)
}

/// An extent over the blocks that were written for it may be added.
proof fn lemma_extent_admitted(
    before: VolumeState,
    item: LeafEntry,
    data: Seq<u8>,
    key: BafsKey,
    extent: BafsExtentData,
)
    requires
        before.ok(),
        data.len() > 0,
        block_io::blocks_for(data.len()) <= u64::MAX,
        state::is_first_fit(before.free, item, block_io::blocks_for(data.len()) as u64),
        key == extent::extent_key(key.object_id, extent.logical_byte_offset),
        key.object_id <= before.inode_count,
        extent.first_disk_block == item.key.offset,
        extent.block_count == block_io::blocks_for(data.len()),
    ensures
        ({
            let count = block_io::blocks_for(data.len());
            let stored = state::with_data(
                state::with_blocks_taken(before, item, count as u64),
                item.key.offset,
                data,
                count,
            );
            &&& stored.ok()
            &&& state::files_kept(before, stored)
            &&& state::with_record(stored, key, extent::extent_bytes(extent)).ok()
        }),
{
    let count = block_io::blocks_for(data.len());
    let first = item.key.offset;
    let taken = state::with_blocks_taken(before, item, count as u64);
    let stored = state::with_data(taken, first, data, count);
    state::lemma_take_blocks(before, item, count as u64);
    state::lemma_with_data(taken, first, data, count, count);
    assert(state::files_kept(before, taken));
    state::lemma_files_kept_joins(before, taken, stored);
    extent::law_extent_round_trip(extent);
    assert forall|address: u64|
        extent.first_disk_block <= address < extent.first_disk_block
            + extent.block_count implies #[trigger] stored.unused(address)
        && stored.checksum_matches(address) by {}
    state::lemma_with_extent(stored, key, extent::extent_bytes(extent));
}

/// What the records of an inode tree in order say of an inode.
pub proof fn lemma_inode_record(volume: VolumeModel, inode_number: u64)
    requires
        volume.in_order(),
    ensures
        ({
            let key = inode::inode_key(inode_number);
            match inode_in(volume, inode_number) {
                Ok(inode) => {
                    &&& volume.state().inodes.contains_key(key)
                    &&& inode == inode::inode_from(volume.state().inodes[key])
                    &&& inode.inode_number == inode_number
                    &&& inode_number <= volume.state().inode_count
                },
                Err(error) => error == BafsError::NotFound
                    && !volume.state().inodes.contains_key(key),
            }
        }),
{
    let key = inode::inode_key(inode_number);
    let root = volume.superblock.inode_tree_root_block;
    volume_model::lemma_tree_lookup(volume, root, key);
    if volume.state().inodes.contains_key(key) {
        let value = volume.state().inodes[key];
        assert(volume.state().record_ok(key, value));
        assert(value.take(128) =~= value);
    }
}

/// What was superseded where a file was written to. First come nodes of the free
/// extents and the checksums; the inode tree is not changed by then. Then come the
/// nodes on the way to the new extent and, in the tree with that extent, those on
/// the way to the inode.
pub open spec fn write_superseded(
    before: VolumeModel,
    stored: VolumeModel,
    extended: VolumeModel,
    after: VolumeModel,
    inode_number: u64,
    offset: u64,
) -> bool {
    let key = extent::extent_key(inode_number, offset);
    &&& volume_model::nodes_kept(before, stored)
    &&& stored.superblock.inode_tree_root_block == before.superblock.inode_tree_root_block
    &&& extended.superseded == stored.superseded + path_in_inode_tree(stored, key)
    &&& after.superseded == extended.superseded + path_in_inode_tree(
        extended,
        inode::inode_key(inode_number),
    )
}

/// How far the trees grow where `count` data blocks were written to a file.
pub open spec fn grown_by_write(before: VolumeModel, after: VolumeModel, count: nat) -> bool {
    &&& volume_model::trees_gain(before, after, 2, 1, count)
    &&& tree::root_level(after.blocks(), after.superblock.inode_tree_root_block)
        <= tree::root_level(before.blocks(), before.superblock.inode_tree_root_block) + 2
    &&& tree::root_level(after.blocks(), after.superblock.free_extent_tree_root_block)
        <= tree::root_level(before.blocks(), before.superblock.free_extent_tree_root_block) + 1
    &&& tree::root_level(after.blocks(), after.superblock.checksum_tree_root_block)
        <= tree::level_bound(
        tree::root_level(before.blocks(), before.superblock.checksum_tree_root_block),
        count,
    )
}

/// What a write that succeeds makes of a volume.
pub open spec fn write_done(
    before: VolumeModel,
    after: VolumeModel,
    inode_number: u64,
    offset: u64,
    data: Seq<u8>,
) -> bool {
    let count = block_io::blocks_for(data.len());
    &&& grown_by_write(before, after, count)
    &&& forall|highest: nat| #[trigger]
        stays_below(before, count, highest) ==> after.next_free <= before.next_free + write_cost(
            before,
            count,
            highest,
        )
    &&& after.superblock.free_block_count == fewer_free_blocks(
        before.superblock.free_block_count,
        count,
    )
    &&& exists|item: LeafEntry| #[trigger]
        file_written(
            before.state(),
            after.state(),
            inode_number,
            offset,
            data,
            before.next_transaction,
            item,
        )
    &&& exists|stored: VolumeModel, extended: VolumeModel| #[trigger]
        write_superseded(before, stored, extended, after, inode_number, offset)
}

/// The error with which a write fails for want of room.
pub open spec fn write_error(
    before: VolumeModel,
    reliable: bool,
    count: nat,
    error: BafsError,
) -> bool {
    error == BafsError::InputOutputError && !reliable || (error == BafsError::OutOfSpace || error
        == BafsError::NotSupported) && !room_for_write(before, count)
}

/// What writing `data` to a file leads to.
pub open spec fn write_outcome(
    before: VolumeModel,
    after: VolumeModel,
    reliable: bool,
    inode_number: u64,
    offset: u64,
    data: Seq<u8>,
    result: Result<usize, BafsError>,
) -> bool {
    let count = block_io::blocks_for(data.len());
    if data.len() == 0 {
        result == Ok::<usize, BafsError>(0) && after == before
    } else {
        match write_refusal(before, inode_number, data.len()) {
            Some(error) => {
                &&& result == Err::<usize, BafsError>(error) || result == Err::<usize, BafsError>(
                    BafsError::InputOutputError,
                ) && !reliable
                &&& after == before
            },
            None => {
                &&& result is Err ==> after.superblock == before.superblock
                &&& space_error(before, count as u64) matches Some(error) ==> result == Err::<
                    usize,
                    BafsError,
                >(error) || result == Err::<usize, BafsError>(BafsError::InputOutputError)
                    && !reliable
                &&& before.in_order() ==> {
                    &&& after.in_order()
                    &&& volume_model::same_session(before, after)
                    &&& volume_model::nodes_kept(before, after)
                    &&& match result {
                        Ok(written) => {
                            &&& written == data.len()
                            &&& write_done(before, after, inode_number, offset, data)
                        },
                        Err(error) => {
                            &&& after.state() == (VolumeState {
                                data: after.state().data,
                                ..before.state()
                            })
                            &&& state::files_kept(before.state(), after.state())
                            &&& write_error(before, reliable, count, error)
                        },
                    }
                }
            },
        }
    }
}

/// Write `data` to blocks of its own, and record them with the file's inode.
#[verifier::spinoff_prover]
#[verifier::rlimit(60)]
fn write_and_record<D: BlockDevice>(
    volume: &mut BafsVolume<D>,
    file_inode_number: u64,
    write_offset_bytes: u64,
    data: &[u8],
    old_inode: &BafsInode,
) -> (result: Result<(), BafsError>)
    requires
        store::cache_valid(old(volume).dirty_block_cache@),
        write_offset_bytes + data@.len() <= u64::MAX,
        data@.len() > 0,
        inode_in(old(volume)@, file_inode_number) == Ok::<BafsInode, BafsError>(*old_inode),
        write_refusal(old(volume)@, file_inode_number, data@.len()) is None,
    ensures
        final(volume).device == old(volume).device,
        exists|first: int, written: nat| #[trigger]
            written_loosely(
                old(volume)@,
                final(volume)@,
                first,
                written,
                block_io::blocks_for(data@.len()),
            ),
        space_error(
            old(volume)@,
            block_io::blocks_for(data@.len()) as u64,
        ) matches Some(error) ==> result == Err::<(), BafsError>(error) || result == Err::<
            (),
            BafsError,
        >(BafsError::InputOutputError) && !old(volume).device.reliable(),
        old(volume)@.in_order() ==> {
            let before = old(volume)@;
            let after = final(volume)@;
            &&& after.next_free <= before.node_area_end()
            &&& volume_model::nodes_kept(before, after)
            &&& match result {
                Ok(_) => {
                    &&& after.in_order()
                    &&& write_done(before, after, file_inode_number, write_offset_bytes, data@)
                },
                Err(error) => write_error(
                    before,
                    old(volume).device.reliable(),
                    block_io::blocks_for(data@.len()),
                    error,
                ),
            }
        },
{
    let ghost before = volume@;
    let generation: u64 = volume.next_transaction_id;
    let length: usize = data.len();
    let block_count: u64 = (length as u64 - 1) / 4096 + 1;
    assert(block_count == block_io::blocks_for(data@.len()));
    let ghost count = block_count as nat;
    let mut file_inode = *old_inode;
    proof {
        if before.in_order() {
            lemma_inode_record(before, file_inode_number);
            assert forall|highest: nat| #[trigger] room_below(
                before,
                count,
                highest,
            ) implies room_for_data(before, count, highest, 0) by {}
        }
    }
    let first_allocated_block: u64 = match allocate_and_write_data_blocks(volume, data) {
        Ok(first_allocated_block) => first_allocated_block,
        Err(error) => {
            return Err(error);
        },
    };
    let ghost stored = volume@;
    let ghost (first, written) = choose|first: int, written: nat| #[trigger]
        written_loosely(before, stored, first, written, count);
    let ghost item = choose|item: LeafEntry|
        state::is_first_fit(before.state().free, item, block_count) && first_allocated_block
            == item.key.offset && stored.state() == state::with_data(
            #[trigger] state::with_blocks_taken(before.state(), item, block_count),
            first_allocated_block,
            data@,
            count,
        );
    let inode_root: u64 = volume.superblock.inode_tree_root_block;
    let extent = BafsExtentData {
        logical_byte_offset: write_offset_bytes,
        first_disk_block: first_allocated_block,
        block_count,
        extent_flags: 0,
        reserved: 0,
    };
    let ghost extent_key = extent::extent_key(file_inode_number, write_offset_bytes);
    proof {
        if before.in_order() {
            lemma_extent_admitted(before.state(), item, data@, extent_key, extent);
            extent::law_extent_round_trip(extent);
            volume_model::lemma_root_present(stored, inode_root);
        }
    }
    match check_room(volume, inode_root, 4, 8) {
        Ok(_) => {},
        Err(error) => {
            return Err(error);
        },
    }
    let recorded = volume_write_extent(volume, file_inode_number, &extent);
    proof {
        volume_model::lemma_worked_on_more(stored, volume@, 0, 0, first, written);
        volume_model::lemma_worked_on_joins(before, stored, volume@, first, written);
        assert(written_loosely(before, volume@, first, written, count));
    }
    match recorded {
        Ok(_) => {},
        Err(error) => {
            return Err(error);
        },
    }
    let ghost extended = volume@;
    let end: u64 = write_offset_bytes + length as u64;
    if end > file_inode.file_size_in_bytes {
        file_inode.file_size_in_bytes = end;
    }
    file_inode.allocated_block_count = file_inode.allocated_block_count + block_count;
    file_inode.generation = generation;
    proof {
        let key = inode::inode_key(file_inode_number);
        let value = inode::inode_bytes(file_inode);
        assert(file_inode == grown_inode(
            *old_inode,
            write_offset_bytes + data@.len(),
            count,
            generation,
        ));
        inode::lemma_inode_len(file_inode);
        inode::law_inode_round_trip(file_inode);
        if before.in_order() {
            state::lemma_with_plain_record(extended.state(), key, value);
            assert(record_admitted(extended, key, value));
        }
    }
    let updated = volume_write_inode(volume, &file_inode);
    proof {
        volume_model::lemma_worked_on_more(extended, volume@, 0, 0, first, written);
        volume_model::lemma_worked_on_joins(before, extended, volume@, first, written);
        assert(written_loosely(before, volume@, first, written, count));
        if before.in_order() {
            volume_model::lemma_nodes_kept(stored, extended);
            volume_model::lemma_nodes_kept_joins(before, stored, extended);
            if updated is Ok {
                volume_model::lemma_nodes_kept(extended, volume@);
                volume_model::lemma_nodes_kept_joins(before, extended, volume@);
                lemma_other_levels(stored, extended);
                lemma_other_levels(extended, volume@);
                volume_model::lemma_trees_gain_join(
                    before,
                    stored,
                    extended,
                    0,
                    1,
                    count,
                    1,
                    0,
                    0,
                );
                volume_model::lemma_trees_gain_join(
                    before,
                    extended,
                    volume@,
                    1,
                    1,
                    count,
                    1,
                    0,
                    0,
                );
                volume_model::lemma_root_present(
                    before,
                    before.superblock.checksum_tree_root_block,
                );
                volume_model::lemma_gained_level(
                    before,
                    before.superblock.checksum_tree_root_block,
                    volume@,
                    volume@.superblock.checksum_tree_root_block,
                    tree::root_level(
                        before.blocks(),
                        before.superblock.checksum_tree_root_block,
                    ),
                    0,
                    count,
                );
                assert(write_superseded(
                    before,
                    stored,
                    extended,
                    volume@,
                    file_inode_number,
                    write_offset_bytes,
                ));
                assert(file_written(
                    before.state(),
                    volume@.state(),
                    file_inode_number,
                    write_offset_bytes,
                    data@,
                    generation,
                    item,
                ));
            }
        }
    }
    updated
}

/// The trees besides the inode tree are as high after a change of that tree.
proof fn lemma_other_levels(before: VolumeModel, after: VolumeModel)
    requires
        before.in_order(),
        volume_model::nodes_written(before, after),
        after.superblock == (BafsSuperblock {
            inode_tree_root_block: after.superblock.inode_tree_root_block,
            ..before.superblock
        }),
    ensures
        tree::root_level(after.blocks(), after.superblock.free_extent_tree_root_block)
            == tree::root_level(before.blocks(), before.superblock.free_extent_tree_root_block),
        tree::root_level(after.blocks(), after.superblock.checksum_tree_root_block)
            == tree::root_level(before.blocks(), before.superblock.checksum_tree_root_block),
{
    volume_model::lemma_nodes_added(before, after);
    assert(before.tree_ready(before.superblock.free_extent_tree_root_block));
    assert(before.tree_ready(before.superblock.checksum_tree_root_block));
}

/// Write `data` to a file at `write_offset_bytes`. Returns how many bytes were
/// written, which is all of them.
///
/// The data goes to blocks of its own; where it overlaps with what was written
/// before at a lower offset, that is still what is read. A write that fails leaves
/// the superblock as it was.
#[verifier::spinoff_prover]
#[verifier::rlimit(40)]
pub fn volume_write_file_data<D: BlockDevice>(
    volume: &mut BafsVolume<D>,
    file_inode_number: u64,
    write_offset_bytes: u64,
    data: &[u8],
) -> (result: Result<usize, BafsError>)
    requires
        store::cache_valid(old(volume).dirty_block_cache@),
        write_offset_bytes + data@.len() <= u64::MAX,
    ensures
        final(volume).device == old(volume).device,
        exists|first: int| #[trigger]
            volume_model::worked_on(
                old(volume)@,
                final(volume)@,
                first,
                block_io::blocks_for(data@.len()),
            ),
        write_outcome(
            old(volume)@,
            final(volume)@,
            old(volume).device.reliable(),
            file_inode_number,
            write_offset_bytes,
            data@,
            result,
        ),
{
    let ghost before = volume@;
    let ghost count = block_io::blocks_for(data@.len());
    assert(volume_model::worked_on(before, before, 0, count));
    let length: usize = data.len();
    if length == 0 {
        return Ok(0);
    }
    let file_inode = match volume_read_inode(volume, file_inode_number) {
        Ok(file_inode) => file_inode,
        Err(error) => {
            return Err(error);
        },
    };
    if !file_inode.is_regular_file() {
        return Err(BafsError::NotARegularFile);
    }
    let block_count: u64 = (length as u64 - 1) / 4096 + 1;
    assert(block_count == count);
    if file_inode.allocated_block_count > u64::MAX - block_count {
        return Err(BafsError::CorruptedStructure);
    }
    let saved = volume.superblock;
    let written = write_and_record(
        volume,
        file_inode_number,
        write_offset_bytes,
        data,
        &file_inode,
    );
    let ghost unsaved = volume@;
    let ghost (first, blocks) = choose|first: int, blocks: nat| #[trigger]
        written_loosely(before, unsaved, first, blocks, count);
    proof {
        volume_model::lemma_worked_on_more(before, unsaved, first, blocks, first, count);
    }
    match written {
        Ok(_) => Ok(length),
        Err(error) => {
            volume.superblock = saved;
            proof {
                volume_model::lemma_superblock_restored(before, unsaved, volume@, first, count);
                volume_model::lemma_superblock_restored(before, unsaved, volume@, first, blocks);
                if before.in_order() {
                    volume_model::lemma_work_given_up(before, volume@, first, blocks);
                }
            }
            Err(error)
        },
    }
}

} // verus!
