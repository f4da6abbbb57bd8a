//! Removing names, and what they were the last name of.

use vstd::prelude::*;
use crate::block_device::BlockDevice;
use crate::btree::fanout;
use crate::btree::key;
use crate::btree::key::{
    BafsKey, ITEM_TYPE_DIRECTORY_ENTRY, ITEM_TYPE_EXTENT_DATA, ITEM_TYPE_INODE,
};
use crate::btree::model;
use crate::btree::node;
use crate::btree::node::{BafsLeafItem, LeafEntry};
use crate::btree::store;
use crate::btree::tree;
use crate::dir;
use crate::error::BafsError;
use crate::extent;
use crate::inode;
use crate::inode::BafsInode;
use crate::state;
use crate::state::VolumeState;
use crate::superblock::BafsSuperblock;
use super::model as volume_model;
use super::reading;
use super::writing;
use super::writing::volume_write_inode;
use super::{
    check_room, inode_in, room_error, volume_read_inode, BafsVolume,
    VolumeModel, TREE_LEVEL_LIMIT,
};

verus! {

broadcast use {
    crate::btree::store::lemma_stamped_none,
    super::model::lemma_nodes_stamped_none,
};

/// How the trees of a volume grew by one change of the inode tree.
spec fn inode_tree_grew(before: VolumeModel, after: VolumeModel, key: BafsKey) -> bool {
    let level = tree::root_level(before.blocks(), before.superblock.inode_tree_root_block);
    &&& volume_model::nodes_written(before, after)
    &&& after.superblock == (BafsSuperblock {
        inode_tree_root_block: after.superblock.inode_tree_root_block,
        ..before.superblock
    })
    &&& after.superseded == before.superseded + writing::path_in_inode_tree(before, key)
    &&& after.next_free <= before.next_free + 2 * level + 3
    &&& tree::root_level(after.blocks(), after.superblock.inode_tree_root_block) <= level + 1
    &&& volume_model::trees_gain(before, after, 1, 0, 0)
}

/// Remove a name from a directory.
#[verifier::spinoff_prover]
#[verifier::rlimit(40)]
fn remove_entry<D: BlockDevice>(
    volume: &mut BafsVolume<D>,
    directory_inode_number: u64,
    name: &str,
) -> (result: Result<(), BafsError>)
    requires
        store::cache_valid(old(volume).dirty_block_cache@),
        old(volume).next_free_block + 512 <= u64::MAX,
    ensures
        final(volume).device == old(volume).device,
        volume_model::worked_on(old(volume)@, final(volume)@, 0, 0),
        final(volume).superblock.free_block_count == old(volume).superblock.free_block_count,
        result is Err ==> final(volume).superblock == old(volume).superblock,
        old(volume)@.in_order() && writing::room_for_record(old(volume)@) && state::entry_of(
            old(volume)@.state(),
            directory_inode_number,
            name@,
        ) is Some ==> {
            let before = old(volume)@;
            let after = final(volume)@;
            &&& after.in_order()
            &&& match result {
                Ok(_) => {
                    &&& after.state() == state::without_name(before.state(), directory_inode_number, name@)
                    &&& inode_tree_grew(
                        before,
                        after,
                        dir::entry_key(directory_inode_number, name@),
                    )
                },
                Err(error) => {
                    &&& error == BafsError::InputOutputError && !old(volume).device.reliable()
                    &&& after == before
                },
            }
        },
{
    let ghost before = volume@;
    let ghost key = dir::entry_key(directory_inode_number, name@);
    let ghost shorter = dir::without_entry(before.state().inodes[key], name@);
    let ghost ready = before.in_order() && writing::room_for_record(before) && state::entry_of(
        before.state(),
        directory_inode_number,
        name@,
    ) is Some;
    let generation: u64 = volume.next_transaction_id;
    proof {
        if ready {
            volume_model::lemma_tree_lookup(
                before,
                before.superblock.inode_tree_root_block,
                key,
            );
            state::lemma_entry_of(before.state(), directory_inode_number, name@);
            state::lemma_without_entry(before.state(), directory_inode_number, name@);
        }
    }
    let removed = dir::directory_unlink_entry(
        &volume.device,
        &mut volume.dirty_block_cache,
        volume.superblock.inode_tree_root_block,
        directory_inode_number,
        name,
        generation,
        &mut volume.next_free_block,
        &mut volume.superseded_blocks,
    );
    assert(store::cow_frame(
        before.cache,
        volume@.cache,
        before.next_free as int,
        volume@.next_free as int,
    ));
    assert(tree::extends(before.superseded, volume@.superseded));
    let result = match removed {
        Ok(new_root) => {
            volume.superblock.inode_tree_root_block = new_root;
            Ok(())
        },
        Err(error) => Err(error),
    };
    proof {
        if ready {
            if shorter.len() == 0 {
                writing::lemma_record_removed(
                    before,
                    volume@,
                    volume.device.reliable(),
                    key,
                    removed,
                );
                if removed is Ok {
                    fanout::lemma_gains_more(
                        before.blocks(),
                        before.superblock.inode_tree_root_block,
                        volume@.blocks(),
                        volume@.superblock.inode_tree_root_block,
                        before.next_free as int,
                        volume@.next_free as int,
                        0,
                        1,
                    );
                }
            } else {
                dir::lemma_without_entry_shorter(before.state().inodes[key], name@);
                tree::lemma_shorter_value_fits(
                    before.blocks(),
                    before.superblock.inode_tree_root_block,
                    key,
                    shorter,
                );
                assert(writing::record_admitted(before, key, shorter));
                writing::lemma_record_put(
                    before,
                    volume@,
                    volume.device.reliable(),
                    key,
                    shorter,
                    removed,
                );
            }
        }
    }
    result
}

/// There is room for removing one record of the inode tree.
spec fn room_for_removal(volume: VolumeModel) -> bool {
    volume.next_free + tree::root_level(
        volume.blocks(),
        volume.superblock.inode_tree_root_block,
    ) + 1 <= volume.node_area_end()
}

/// Remove a record of the inode tree.
fn remove_record<D: BlockDevice>(volume: &mut BafsVolume<D>, key: BafsKey) -> (result: Result<
    (),
    BafsError,
>)
    requires
        store::cache_valid(old(volume).dirty_block_cache@),
        old(volume).next_free_block + 512 <= u64::MAX,
    ensures
        final(volume).device == old(volume).device,
        volume_model::worked_on(old(volume)@, final(volume)@, 0, 0),
        final(volume).superblock.free_block_count == old(volume).superblock.free_block_count,
        old(volume)@.in_order() && room_for_removal(old(volume)@)
            && old(volume)@.state().inodes.contains_key(key) ==> match result {
            Ok(_) => writing::record_removed(old(volume)@, final(volume)@, key),
            Err(error) => {
                &&& error == BafsError::InputOutputError && !old(volume).device.reliable()
                &&& final(volume)@ == old(volume)@
            },
        },
{
    let ghost before = volume@;
    let generation: u64 = volume.next_transaction_id;
    let removed = tree::delete_from_tree(
        &volume.device,
        &mut volume.dirty_block_cache,
        volume.superblock.inode_tree_root_block,
        key,
        generation,
        &mut volume.next_free_block,
        &mut volume.superseded_blocks,
    );
    let result = match removed {
        Ok(new_root) => {
            volume.superblock.inode_tree_root_block = new_root;
            Ok(())
        },
        Err(error) => Err(error),
    };
    proof {
        if before.in_order() && room_for_removal(before) && before.state().inodes.contains_key(
            key,
        ) {
            writing::lemma_record_removed(
                before,
                volume@,
                volume.device.reliable(),
                key,
                removed,
            );
        }
    }
    result
}

/// Return blocks to the free ones.
#[verifier::spinoff_prover]
#[verifier::rlimit(40)]
fn return_blocks<D: BlockDevice>(volume: &mut BafsVolume<D>, first: u64, count: u64) -> (result:
    Result<(), BafsError>)
    requires
        store::cache_valid(old(volume).dirty_block_cache@),
        old(volume).next_free_block + 1536 <= u64::MAX,
    ensures
        result is Ok ==> final(volume).superblock.free_block_count == if old(
            volume,
        ).superblock.free_block_count + count > u64::MAX {
            u64::MAX
        } else {
            (old(volume).superblock.free_block_count + count) as u64
        },
        final(volume).device == old(volume).device,
        volume_model::worked_on(old(volume)@, final(volume)@, 0, 0),
        ({
            let before = old(volume)@;
            let after = final(volume)@;
            let root = before.superblock.free_extent_tree_root_block;
            let level = tree::root_level(before.blocks(), root);
            before.in_order() && level + 1 < model::level_limit() && before.next_free + 4 * level
                + 5 <= before.node_area_end() && count > 0 && before.node_area_end() <= first
                && first + count <= before.superblock.total_block_count && (forall|address: u64|
                first <= address < first + count ==> #[trigger] before.state().unused(address))
                ==> {
                &&& after.in_order()
                &&& match result {
                    Ok(_) => {
                        &&& after.state() == (VolumeState {
                            free: extent::freed_map(before.state().free, first, count),
                            ..before.state()
                        })
                        &&& volume_model::nodes_written(before, after)
                        &&& after.superblock.inode_tree_root_block
                            == before.superblock.inode_tree_root_block
                        &&& after.next_free <= before.next_free + 4 * level + 5
                        &&& volume_model::trees_gain(before, after, 0, 1, 0)
                    },
                    Err(error) => {
                        &&& error == BafsError::InputOutputError && !old(
                            volume,
                        ).device.reliable()
                        &&& after.state() == before.state()
                        &&& volume_model::nodes_written(before, after)
                    },
                }
            }
        }),
{
    let ghost before = volume@;
    let ghost root = volume.superblock.free_extent_tree_root_block;
    let generation: u64 = volume.next_transaction_id;
    let ghost ready = before.in_order() && tree::root_level(before.blocks(), root) + 1
        < model::level_limit() && before.next_free + 4 * tree::root_level(before.blocks(), root)
        + 5 <= before.node_area_end() && count > 0 && before.node_area_end() <= first && first
        + count <= before.superblock.total_block_count && (forall|address: u64|
        first <= address < first + count ==> #[trigger] before.state().unused(address));
    proof {
        if ready {
            assert(tree::tree_ready(
                before.blocks(),
                root,
                before.node_area_start(),
                before.next_free as int,
            ));
            state::lemma_return_blocks(before.state(), first, count);
        }
    }
    let freed = extent::free_blocks(
        &volume.device,
        &mut volume.dirty_block_cache,
        volume.superblock.free_extent_tree_root_block,
        first,
        count,
        generation,
        &mut volume.next_free_block,
        &mut volume.superseded_blocks,
    );
    proof {
        extent::lemma_freeing_extends(
            before.disk,
            before.cache,
            volume@.cache,
            volume.device.reliable(),
            root,
            first,
            count,
            before.next_free,
            volume@.next_free,
            before.superseded,
            volume@.superseded,
            freed,
        );
    }
    match freed {
        Err(error) => {
            proof {
                if ready {
                    let after = volume@;
                    volume_model::lemma_nodes_added(before, after);
                    assert(before.tree_ready(before.superblock.inode_tree_root_block));
                    assert(before.tree_ready(before.superblock.free_extent_tree_root_block));
                    assert(before.tree_ready(before.superblock.checksum_tree_root_block));
                }
            }
            Err(error)
        },
        Ok(new_root) => {
            volume.superblock.free_extent_tree_root_block = new_root;
            volume.superblock.free_block_count = if volume.superblock.free_block_count
                > u64::MAX - count {
                u64::MAX
            } else {
                volume.superblock.free_block_count + count
            };
            proof {
                if ready {
                    volume_model::lemma_free_tree_changed(before, volume@);
                    volume_model::lemma_nodes_kept(before, volume@);
                    volume_model::lemma_trees_gain(before, volume@, 0, 1, 0);
                }
            }
            Ok(())
        },
    }
}

/// `entries` are the extents of a file.
pub open spec fn lists_extents(
    contents: VolumeState,
    inode_number: u64,
    entries: Seq<LeafEntry>,
) -> bool {
    &&& forall|i: int|
        0 <= i < entries.len() ==> {
            let key = (#[trigger] entries[i]).key;
            &&& key == extent::extent_key(inode_number, key.offset)
            &&& contents.inodes.contains_key(key)
            &&& contents.inodes[key] == entries[i].value
            &&& entries[i].value.len() >= 32
        }
    &&& forall|i: int, j: int|
        0 <= i < j < entries.len() ==> (#[trigger] entries[i]).key.offset < (#[trigger] entries[j]).key.offset
    &&& forall|start: u64| #[trigger]
        contents.inodes.contains_key(extent::extent_key(inode_number, start)) ==> exists|i: int|
            0 <= i < entries.len() && (#[trigger] entries[i]).key == extent::extent_key(
                inode_number,
                start,
            )
}

/// A key is among the first `count` entries.
pub open spec fn listed(entries: Seq<LeafEntry>, count: int, key: BafsKey) -> bool {
    exists|i: int| 0 <= i < count && (#[trigger] entries[i]).key == key
}

/// A block belongs to one of the first `count` entries.
pub open spec fn held(
    contents: VolumeState,
    entries: Seq<LeafEntry>,
    count: int,
    address: u64,
) -> bool {
    exists|i: int| 0 <= i < count && contents.uses((#[trigger] entries[i]).key, address)
}

/// The first `count` of the extents were removed and their blocks freed.
pub open spec fn extents_freed(
    before: VolumeState,
    after: VolumeState,
    entries: Seq<LeafEntry>,
    count: int,
) -> bool {
    &&& after.total == before.total
    &&& after.inode_count == before.inode_count
    &&& after.checksums == before.checksums
    &&& after.data == before.data
    &&& forall|key: BafsKey| #[trigger]
        after.inodes.contains_key(key) == (before.inodes.contains_key(key) && !listed(
            entries,
            count,
            key,
        )) && (after.inodes.contains_key(key) ==> after.inodes[key] == before.inodes[key])
    &&& forall|address: u64| #[trigger]
        extent::is_free(after.free, address) == (extent::is_free(before.free, address) || held(
            before,
            entries,
            count,
            address,
        ))
    &&& extent::runs_apart(before.free) ==> extent::runs_apart(after.free)
}

/// The count of free blocks once the first `count` of the extents are freed.
pub open spec fn more_free_blocks(
    free_block_count: u64,
    entries: Seq<LeafEntry>,
    count: nat,
) -> u64
    decreases count,
{
    if count == 0 {
        free_block_count
    } else {
        let earlier = more_free_blocks(free_block_count, entries, (count - 1) as nat);
        let freed = extent::extent_from(entries[count - 1].value).block_count;
        if earlier + freed > u64::MAX {
            u64::MAX
        } else {
            (earlier + freed) as u64
        }
    }
}

/// One more extent was removed and its blocks freed.
proof fn lemma_extent_freed(
    before: VolumeState,
    current: VolumeState,
    after: VolumeState,
    inode_number: u64,
    entries: Seq<LeafEntry>,
    count: int,
)
    requires
        before.ok(),
        current.ok(),
        lists_extents(before, inode_number, entries),
        0 <= count < entries.len(),
        extents_freed(before, current, entries, count),
        ({
            let key = entries[count].key;
            let run = extent::extent_from(entries[count].value);
            after == VolumeState {
                free: extent::freed_map(current.free, run.first_disk_block, run.block_count),
                ..state::without_record(current, key)
            }
        }),
    ensures
        extents_freed(before, after, entries, count + 1),
{
    let key = entries[count].key;
    let run = extent::extent_from(entries[count].value);
    lemma_extent_is_there(before, current, inode_number, entries, count);
    assert forall|block: u64|
        run.first_disk_block <= block < run.first_disk_block
            + run.block_count implies !#[trigger] extent::is_free(current.free, block) by {
        assert(current.uses(key, block));
    }
    extent::law_freeing_returns_blocks(current.free, run.first_disk_block, run.block_count);
    if extent::runs_apart(current.free) {
        extent::law_freeing_joins_runs(current.free, run.first_disk_block, run.block_count);
    }
    assert forall|other: BafsKey| #[trigger]
        after.inodes.contains_key(other) == (before.inodes.contains_key(other) && !listed(
            entries,
            count + 1,
            other,
        )) && (after.inodes.contains_key(other) ==> after.inodes[other] == before.inodes[other]) by {
        assert(current.inodes.contains_key(other) == (before.inodes.contains_key(other) && !listed(
            entries,
            count,
            other,
        )));
        if listed(entries, count + 1, other) {
            let i = choose|i: int| 0 <= i < count + 1 && (#[trigger] entries[i]).key == other;
            if i < count {
                assert(listed(entries, count, other));
            }
        }
        if listed(entries, count, other) {
            let i = choose|i: int| 0 <= i < count && (#[trigger] entries[i]).key == other;
            assert(entries[i].key == other);
            assert(listed(entries, count + 1, other));
        }
        if other == key {
            assert(entries[count].key == key);
            assert(listed(entries, count + 1, key));
        }
    }
    assert forall|address: u64| #[trigger]
        extent::is_free(after.free, address) == (extent::is_free(before.free, address) || held(
            before,
            entries,
            count + 1,
            address,
        )) by {
        assert(extent::is_free(current.free, address) == (extent::is_free(before.free, address)
            || held(before, entries, count, address)));
        assert(before.uses(key, address) == (run.first_disk_block <= address
            < run.first_disk_block + run.block_count));
        if held(before, entries, count + 1, address) {
            let i = choose|i: int|
                0 <= i < count + 1 && before.uses((#[trigger] entries[i]).key, address);
            if i < count {
                assert(before.uses(entries[i].key, address));
                assert(held(before, entries, count, address));
            }
        }
        if held(before, entries, count, address) {
            let i = choose|i: int|
                0 <= i < count && before.uses((#[trigger] entries[i]).key, address);
            assert(before.uses(entries[i].key, address));
            assert(held(before, entries, count + 1, address));
        }
        if before.uses(key, address) {
            assert(before.uses(entries[count].key, address));
            assert(held(before, entries, count + 1, address));
        }
    }
}

/// The next extent to be removed is still there.
proof fn lemma_extent_is_there(
    before: VolumeState,
    current: VolumeState,
    inode_number: u64,
    entries: Seq<LeafEntry>,
    count: int,
)
    requires
        before.ok(),
        lists_extents(before, inode_number, entries),
        0 <= count < entries.len(),
        extents_freed(before, current, entries, count),
    ensures
        ({
            let key = entries[count].key;
            let run = extent::extent_from(entries[count].value);
            &&& current.inodes.contains_key(key)
            &&& current.inodes[key] == entries[count].value
            &&& current.is_extent(key)
            &&& run.block_count > 0
            &&& state::node_area_end(current.total) <= run.first_disk_block
            &&& run.first_disk_block + run.block_count <= current.total
            &&& forall|address: u64|
                run.first_disk_block <= address < run.first_disk_block + run.block_count
                    ==> #[trigger] current.uses(key, address) && before.uses(key, address)
        }),
{
    let key = entries[count].key;
    assert(before.inodes.contains_key(key));
    assert(before.record_ok(key, before.inodes[key]));
    assert(!listed(entries, count, key)) by {
        if listed(entries, count, key) {
            let i = choose|i: int| 0 <= i < count && (#[trigger] entries[i]).key == key;
            assert(entries[i].key.offset < entries[count].key.offset);
        }
    }
    assert(current.inodes.contains_key(key));
}

/// The level that the tree of free extents may get where `extent_count` extents are
/// freed.
pub open spec fn free_level_bound(volume: VolumeModel, extent_count: nat) -> nat {
    tree::level_bound(
        tree::root_level(volume.blocks(), volume.superblock.free_extent_tree_root_block),
        extent_count,
    )
}

/// At most so many tree nodes are written where one of `extent_count` extents is
/// removed and its blocks are freed: those on the way to the extent, and those of the
/// tree of free extents that a removal and an insertion write.
pub open spec fn extent_cost(volume: VolumeModel, extent_count: nat) -> nat {
    tree::root_level(volume.blocks(), volume.superblock.inode_tree_root_block) + 1 + 4
        * free_level_bound(volume, extent_count) + 5
}

/// The extents of a file can be freed.
spec fn extents_fit(volume: VolumeModel, extent_count: nat) -> bool {
    &&& tree::root_level(volume.blocks(), volume.superblock.inode_tree_root_block)
        < TREE_LEVEL_LIMIT
    &&& free_level_bound(volume, extent_count) < TREE_LEVEL_LIMIT
    &&& volume.next_free + extent_count * extent_cost(volume, extent_count)
        <= volume.node_area_end()
}

/// What is known of the volume once the first `count` of the extents are freed.
spec fn freed_so_far(
    before: VolumeModel,
    current: VolumeModel,
    entries: Seq<LeafEntry>,
    count: nat,
) -> bool {
    &&& volume_model::nodes_written(before, current)
    &&& current.in_order()
    &&& extents_freed(before.state(), current.state(), entries, count as int)
    &&& tree::root_level(current.blocks(), current.superblock.inode_tree_root_block)
        == tree::root_level(before.blocks(), before.superblock.inode_tree_root_block)
    &&& volume_model::trees_gain(before, current, 0, count, 0)
    &&& count <= entries.len()
    &&& current.next_free <= before.next_free + count * extent_cost(before, entries.len())
}

/// The level of the tree of free extents while extents are freed.
proof fn lemma_free_level(
    before: VolumeModel,
    current: VolumeModel,
    entries: Seq<LeafEntry>,
    count: nat,
)
    requires
        before.in_order(),
        freed_so_far(before, current, entries, count),
    ensures
        tree::root_level(current.blocks(), current.superblock.free_extent_tree_root_block)
            <= free_level_bound(before, entries.len()),
{
    let root = before.superblock.free_extent_tree_root_block;
    volume_model::lemma_root_present(before, root);
    volume_model::lemma_gained_level(
        before,
        root,
        current,
        current.superblock.free_extent_tree_root_block,
        tree::root_level(before.blocks(), root),
        0,
        count,
    );
    fanout::lemma_levels_gained_monotone(count, entries.len());
}

/// The error with which freeing an extent fails for want of room.
spec fn extent_error(before: VolumeModel, reliable: bool, error: BafsError) -> bool {
    ||| error == BafsError::InputOutputError && !reliable
    ||| error == BafsError::NotSupported && (tree::root_level(
        before.blocks(),
        before.superblock.inode_tree_root_block,
    ) >= TREE_LEVEL_LIMIT || tree::root_level(
        before.blocks(),
        before.superblock.free_extent_tree_root_block,
    ) >= TREE_LEVEL_LIMIT)
    ||| error == BafsError::OutOfSpace && before.next_free + tree::root_level(
        before.blocks(),
        before.superblock.inode_tree_root_block,
    ) + 1 + 4 * tree::root_level(before.blocks(), before.superblock.free_extent_tree_root_block)
        + 5 > before.node_area_end()
}

/// Remove one extent and free its blocks.
#[verifier::spinoff_prover]
#[verifier::rlimit(60)]
fn free_extent<D: BlockDevice>(volume: &mut BafsVolume<D>, item: &BafsLeafItem) -> (result: Result<
    (),
    BafsError,
>)
    requires
        store::cache_valid(old(volume).dirty_block_cache@),
        item.value@.len() >= 32,
    ensures
        final(volume).device == old(volume).device,
        volume_model::worked_on(old(volume)@, final(volume)@, 0, 0),
        result is Ok ==> final(volume).superblock.free_block_count == if old(
            volume,
        ).superblock.free_block_count + extent::extent_from(item.value@).block_count > u64::MAX {
            u64::MAX
        } else {
            (old(volume).superblock.free_block_count + extent::extent_from(
                item.value@,
            ).block_count) as u64
        },
        ({
            let before = old(volume)@;
            let after = final(volume)@;
            let run = extent::extent_from(item.value@);
            before.in_order() && before.state().inodes.contains_key(item.key)
                && before.state().inodes[item.key] == item.value@ && item.key.item_type
                == ITEM_TYPE_EXTENT_DATA ==> {
                &&& volume_model::nodes_written(before, after)
                &&& match result {
                    Ok(_) => {
                        &&& after.in_order()
                        &&& after.state() == (VolumeState {
                            free: extent::freed_map(
                                before.state().free,
                                run.first_disk_block,
                                run.block_count,
                            ),
                            ..state::without_record(before.state(), item.key)
                        })
                        &&& tree::root_level(
                            after.blocks(),
                            after.superblock.inode_tree_root_block,
                        ) == tree::root_level(
                            before.blocks(),
                            before.superblock.inode_tree_root_block,
                        )
                        &&& volume_model::trees_gain(before, after, 0, 1, 0)
                        &&& after.next_free <= before.next_free + tree::root_level(
                            before.blocks(),
                            before.superblock.inode_tree_root_block,
                        ) + 1 + 4 * tree::root_level(
                            before.blocks(),
                            before.superblock.free_extent_tree_root_block,
                        ) + 5
                    },
                    Err(error) => extent_error(before, old(volume).device.reliable(), error),
                }
            }
        }),
{
    let ghost before = volume@;
    let ghost run = extent::extent_from(item.value@);
    let ghost free_root = before.superblock.free_extent_tree_root_block;
    let ghost ready = before.in_order() && before.state().inodes.contains_key(item.key)
        && before.state().inodes[item.key] == item.value@ && item.key.item_type
        == ITEM_TYPE_EXTENT_DATA;
    proof {
        if ready {
            volume_model::lemma_root_present(before, before.superblock.inode_tree_root_block);
            assert(before.state().record_ok(item.key, item.value@));
        }
    }
    let extent = extent::deserialise_extent_data_from_bytes(item.value.as_slice());
    match check_room(volume, volume.superblock.inode_tree_root_block, 1, 1) {
        Ok(_) => {},
        Err(error) => {
            return Err(error);
        },
    }
    match remove_record(volume, item.key) {
        Ok(_) => {},
        Err(error) => {
            return Err(error);
        },
    }
    let ghost middle = volume@;
    proof {
        if ready {
            state::lemma_without_record(before.state(), item.key);
            volume_model::lemma_nodes_added(before, middle);
            volume_model::lemma_nodes_kept(before, middle);
            assert(before.tree_ready(free_root));
            volume_model::lemma_root_present(middle, free_root);
            assert forall|address: u64|
                run.first_disk_block <= address < run.first_disk_block
                    + run.block_count implies #[trigger] middle.state().unused(address) by {
                assert(before.state().uses(item.key, address));
            }
        }
    }
    match check_room(volume, volume.superblock.free_extent_tree_root_block, 4, 5) {
        Ok(_) => {},
        Err(error) => {
            return Err(error);
        },
    }
    let returned = return_blocks(volume, extent.first_disk_block, extent.block_count);
    proof {
        volume_model::lemma_worked_on_joins(before, middle, volume@, 0, 0);
        if ready {
            lemma_nodes_written_joins(before, middle, volume@);
            if returned is Ok {
                volume_model::lemma_nodes_added(middle, volume@);
                assert(middle.tree_ready(middle.superblock.inode_tree_root_block));
                volume_model::lemma_trees_gain_join(
                    before,
                    middle,
                    volume@,
                    0,
                    0,
                    0,
                    0,
                    1,
                    0,
                );
            }
        }
    }
    returned
}

proof fn lemma_nodes_written_joins(first: VolumeModel, second: VolumeModel, third: VolumeModel)
    requires
        first.laid_out(),
        volume_model::nodes_written(first, second),
        volume_model::nodes_written(second, third),
    ensures
        volume_model::nodes_written(first, third),
{
    store::lemma_cow_frame_joins(
        first.cache,
        second.cache,
        third.cache,
        first.next_free as int,
        second.next_free as int,
        third.next_free as int,
    );
    store::lemma_stamped_joins(
        second.cache,
        third.cache,
        first.next_free as int,
        second.next_free as int,
        third.next_free as int,
        first.next_transaction,
    );
}

/// Freeing the next extent fails for want of room only where the extents do not fit.
proof fn lemma_extent_error(
    before: VolumeModel,
    current: VolumeModel,
    entries: Seq<LeafEntry>,
    count: nat,
    reliable: bool,
    error: BafsError,
)
    requires
        before.in_order(),
        freed_so_far(before, current, entries, count),
        count < entries.len(),
        extent_error(current, reliable, error),
    ensures
        error == BafsError::InputOutputError && !reliable || (error == BafsError::OutOfSpace
            || error == BafsError::NotSupported) && !extents_fit(before, entries.len()),
{
    lemma_free_level(before, current, entries, count);
    writing::lemma_products(
        count as int,
        entries.len() as int,
        extent_cost(before, entries.len()) as int,
    );
}

/// One more extent was freed.
proof fn lemma_freed_one_more(
    before: VolumeModel,
    current: VolumeModel,
    after: VolumeModel,
    inode_number: u64,
    entries: Seq<LeafEntry>,
    count: nat,
)
    requires
        before.in_order(),
        lists_extents(before.state(), inode_number, entries),
        freed_so_far(before, current, entries, count),
        count < entries.len(),
        volume_model::nodes_written(current, after),
        after.in_order(),
        ({
            let run = extent::extent_from(entries[count as int].value);
            after.state() == (VolumeState {
                free: extent::freed_map(
                    current.state().free,
                    run.first_disk_block,
                    run.block_count,
                ),
                ..state::without_record(current.state(), entries[count as int].key)
            })
        }),
        tree::root_level(after.blocks(), after.superblock.inode_tree_root_block)
            == tree::root_level(current.blocks(), current.superblock.inode_tree_root_block),
        volume_model::trees_gain(current, after, 0, 1, 0),
        after.next_free <= current.next_free + tree::root_level(
            current.blocks(),
            current.superblock.inode_tree_root_block,
        ) + 1 + 4 * tree::root_level(
            current.blocks(),
            current.superblock.free_extent_tree_root_block,
        ) + 5,
    ensures
        freed_so_far(before, after, entries, count + 1),
{
    lemma_free_level(before, current, entries, count);
    lemma_nodes_written_joins(before, current, after);
    lemma_extent_freed(
        before.state(),
        current.state(),
        after.state(),
        inode_number,
        entries,
        count as int,
    );
    volume_model::lemma_trees_gain_join(before, current, after, 0, count, 0, 0, 1, 0);
    writing::lemma_products(
        count as int,
        entries.len() as int,
        extent_cost(before, entries.len()) as int,
    );
}

/// Remove all extents of a file and free their blocks.
#[verifier::spinoff_prover]
#[verifier::rlimit(60)]
fn free_extents<D: BlockDevice>(
    volume: &mut BafsVolume<D>,
    items: &Vec<BafsLeafItem>,
    Ghost(inode_number): Ghost<u64>,
) -> (result: Result<(), BafsError>)
    requires
        store::cache_valid(old(volume).dirty_block_cache@),
    ensures
        final(volume).device == old(volume).device,
        volume_model::worked_on(old(volume)@, final(volume)@, 0, 0),
        result is Ok ==> final(volume).superblock.free_block_count == more_free_blocks(
            old(volume).superblock.free_block_count,
            node::leaf_entries(items@),
            items@.len(),
        ),
        ({
            let before = old(volume)@;
            let after = final(volume)@;
            let entries = node::leaf_entries(items@);
            before.in_order() && lists_extents(before.state(), inode_number, entries) ==> {
                &&& volume_model::nodes_written(before, after)
                &&& match result {
                    Ok(_) => freed_so_far(before, after, entries, entries.len()),
                    Err(error) => error == BafsError::InputOutputError && !old(
                        volume,
                    ).device.reliable() || (error == BafsError::OutOfSpace || error
                        == BafsError::NotSupported) && !extents_fit(before, entries.len()),
                }
            }
        }),
{
    let ghost before = volume@;
    let ghost entries = node::leaf_entries(items@);
    let ghost ready = before.in_order() && lists_extents(before.state(), inode_number, entries);
    let mut index: usize = 0;
    proof {
        if ready {
            assert(0 * extent_cost(before, entries.len()) == 0) by (nonlinear_arith);
            volume_model::lemma_trees_gain(before, before, 0, 0, 0);
            assert(extents_freed(before.state(), before.state(), entries, 0)) by {
                assert forall|key: BafsKey| !#[trigger] listed(entries, 0, key) by {}
                assert forall|address: u64| !#[trigger] held(
                    before.state(),
                    entries,
                    0,
                    address,
                ) by {}
            }
            assert(freed_so_far(before, before, entries, 0));
        }
    }
    while index < items.len()
        invariant
            index <= items@.len(),
            store::cache_valid(volume.dirty_block_cache@),
            volume.device == old(volume).device,
            before == old(volume)@,
            entries == node::leaf_entries(items@),
            volume_model::worked_on(before, volume@, 0, 0),
            volume.superblock.free_block_count == more_free_blocks(
                before.superblock.free_block_count,
                entries,
                index as nat,
            ),
            ready == (before.in_order() && lists_extents(before.state(), inode_number, entries)),
            ready ==> freed_so_far(before, volume@, entries, index as nat),
        decreases items@.len() - index,
    {
        let ghost current = volume@;
        proof {
            if ready {
                assert(entries[index as int] == items@[index as int]@);
                lemma_extent_is_there(
                    before.state(),
                    current.state(),
                    inode_number,
                    entries,
                    index as int,
                );
            }
        }
        if items[index].value.len() < 32 {
            return Err(BafsError::CorruptedStructure);
        }
        match free_extent(volume, &items[index]) {
            Ok(_) => {},
            Err(error) => {
                proof {
                    volume_model::lemma_worked_on_joins(before, current, volume@, 0, 0);
                    if ready {
                        lemma_nodes_written_joins(before, current, volume@);
                        lemma_extent_error(
                            before,
                            current,
                            entries,
                            index as nat,
                            volume.device.reliable(),
                            error,
                        );
                    }
                }
                return Err(error);
            },
        }
        proof {
            volume_model::lemma_worked_on_joins(before, current, volume@, 0, 0);
            if ready {
                lemma_freed_one_more(
                    before,
                    current,
                    volume@,
                    inode_number,
                    entries,
                    index as nat,
                );
            }
        }
        index = index + 1;
    }
    Ok(())
}

/// A block belongs to a file.
pub open spec fn file_uses(contents: VolumeState, inode_number: u64, address: u64) -> bool {
    exists|key: BafsKey| key.object_id == inode_number && #[trigger] contents.uses(key, address)
}

/// A record belongs to a file: its inode or one of its extents.
pub open spec fn belongs_to_file(key: BafsKey, inode_number: u64) -> bool {
    key.object_id == inode_number && (key == inode::inode_key(inode_number) || key.item_type
        == ITEM_TYPE_EXTENT_DATA)
}

/// A file was removed, and its blocks are free.
pub open spec fn file_removed(
    before: VolumeState,
    after: VolumeState,
    inode_number: u64,
) -> bool {
    &&& after.total == before.total
    &&& after.inode_count == before.inode_count
    &&& after.checksums == before.checksums
    &&& after.data == before.data
    &&& forall|key: BafsKey| #[trigger]
        after.inodes.contains_key(key) == (before.inodes.contains_key(key) && !belongs_to_file(
            key,
            inode_number,
        )) && (after.inodes.contains_key(key) ==> after.inodes[key] == before.inodes[key])
    &&& forall|address: u64| #[trigger]
        extent::is_free(after.free, address) == (extent::is_free(before.free, address)
            || file_uses(before, inode_number, address))
    &&& extent::runs_apart(before.free) ==> extent::runs_apart(after.free)
}

/// The inode with one name less.
pub open spec fn with_fewer_links(inode: BafsInode) -> BafsInode {
    BafsInode {
        hard_link_count: if inode.hard_link_count == 0 {
            0
        } else {
            (inode.hard_link_count - 1) as u32
        },
        ..inode
    }
}

/// A name of `inode` was removed from a directory, and where it was the last one,
/// the file with it.
pub open spec fn unlinked(
    before: VolumeState,
    after: VolumeState,
    directory: u64,
    name: Seq<char>,
    inode: BafsInode,
) -> bool {
    let named = state::without_name(before, directory, name);
    let fewer = with_fewer_links(inode);
    if fewer.hard_link_count > 0 {
        after == state::with_record(
            named,
            inode::inode_key(inode.inode_number),
            inode::inode_bytes(fewer),
        )
    } else {
        file_removed(named, after, inode.inode_number)
    }
}

proof fn lemma_file_removed(
    before: VolumeState,
    middle: VolumeState,
    after: VolumeState,
    inode_number: u64,
    entries: Seq<LeafEntry>,
)
    requires
        lists_extents(before, inode_number, entries),
        extents_freed(before, middle, entries, entries.len() as int),
        after == state::without_record(middle, inode::inode_key(inode_number)),
    ensures
        file_removed(before, after, inode_number),
{
    assert forall|key: BafsKey| #[trigger]
        after.inodes.contains_key(key) == (before.inodes.contains_key(key) && !belongs_to_file(
            key,
            inode_number,
        )) && (after.inodes.contains_key(key) ==> after.inodes[key] == before.inodes[key]) by {
        assert(middle.inodes.contains_key(key) == (before.inodes.contains_key(key) && !listed(
            entries,
            entries.len() as int,
            key,
        )));
        if listed(entries, entries.len() as int, key) {
            let i = choose|i: int| 0 <= i < entries.len() && (#[trigger] entries[i]).key == key;
            assert(entries[i].key == extent::extent_key(inode_number, entries[i].key.offset));
        } else if before.inodes.contains_key(key) && key.object_id == inode_number
            && key.item_type == ITEM_TYPE_EXTENT_DATA {
            assert(key == extent::extent_key(inode_number, key.offset));
            let i = choose|i: int|
                0 <= i < entries.len() && (#[trigger] entries[i]).key == extent::extent_key(
                    inode_number,
                    key.offset,
                );
            assert(entries[i].key == key);
        }
    }
    assert forall|address: u64| #[trigger]
        extent::is_free(after.free, address) == (extent::is_free(before.free, address)
            || file_uses(before, inode_number, address)) by {
        assert(extent::is_free(middle.free, address) == (extent::is_free(before.free, address)
            || held(before, entries, entries.len() as int, address)));
        if held(before, entries, entries.len() as int, address) {
            let i = choose|i: int|
                0 <= i < entries.len() && before.uses((#[trigger] entries[i]).key, address);
            let key = entries[i].key;
            assert(key == extent::extent_key(inode_number, key.offset));
            assert(before.uses(key, address));
        }
        if file_uses(before, inode_number, address) {
            let key = choose|key: BafsKey|
                key.object_id == inode_number && #[trigger] before.uses(key, address);
            assert(key == extent::extent_key(inode_number, key.offset));
            let i = choose|i: int|
                0 <= i < entries.len() && (#[trigger] entries[i]).key == extent::extent_key(
                    inode_number,
                    key.offset,
                );
            assert(before.uses(entries[i].key, address));
        }
    }
}

/// The extents of a file, as a scan lists them.
pub open spec fn extents_in(volume: VolumeModel, inode_number: u64) -> Result<
    Seq<LeafEntry>,
    BafsError,
> {
    model::tree_range(
        volume.blocks(),
        volume.superblock.inode_tree_root_block,
        extent::extent_key(inode_number, 0),
        extent::extent_key(inode_number, u64::MAX),
    )
}

/// Listing the extents of a file on a volume in order.
pub proof fn lemma_extents_listed(volume: VolumeModel, inode_number: u64)
    requires
        volume.in_order(),
    ensures
        extents_in(volume, inode_number) is Ok,
        lists_extents(volume.state(), inode_number, extents_in(volume, inode_number)->Ok_0),
{
    let items = volume.state().inodes;
    assert forall|start: u64| #[trigger]
        items.contains_key(extent::extent_key(inode_number, start)) implies items[extent::extent_key(
        inode_number,
        start,
    )].len() >= 32 by {
        let key = extent::extent_key(inode_number, start);
        assert(volume.state().record_ok(key, items[key]));
    }
    extent::lemma_extent_items(
        volume.blocks(),
        volume.superblock.inode_tree_root_block,
        inode_number,
    );
}

/// What was superseded where a name was removed: first the nodes on the way to its
/// entry, last those on the way to the inode that it stood for.
pub open spec fn unlink_superseded(
    before: VolumeModel,
    named: VolumeModel,
    freed: VolumeModel,
    after: VolumeModel,
    directory: u64,
    name: Seq<char>,
    inode_number: u64,
) -> bool {
    &&& named.superseded == before.superseded + writing::path_in_inode_tree(
        before,
        dir::entry_key(directory, name),
    )
    &&& volume_model::nodes_kept(named, freed)
    &&& after.superseded == freed.superseded + writing::path_in_inode_tree(
        freed,
        inode::inode_key(inode_number),
    )
}

/// At most so many tree nodes are written where a name is removed and `extent_count`
/// extents are freed with it: those for the entry, for each extent and for the inode.
/// The inode tree may get one level by the change of the entry.
pub open spec fn unlink_cost(volume: VolumeModel, extent_count: nat) -> nat {
    let level = tree::root_level(volume.blocks(), volume.superblock.inode_tree_root_block);
    2 * level + 3 + extent_count * (extent_cost(volume, extent_count) + 1) + 2 * level + 5
}

/// There are enough blocks to remove a name and to free `extent_count` extents.
pub open spec fn room_for_unlink(volume: VolumeModel, extent_count: nat) -> bool {
    let level = tree::root_level(volume.blocks(), volume.superblock.inode_tree_root_block);
    &&& level + 1 < TREE_LEVEL_LIMIT
    &&& free_level_bound(volume, extent_count) < TREE_LEVEL_LIMIT
    &&& volume.next_free + unlink_cost(volume, extent_count) <= volume.node_area_end()
}

/// No names are left in a directory.
pub open spec fn is_empty_directory(contents: VolumeState, inode_number: u64) -> bool {
    forall|key: BafsKey| #[trigger]
        contents.inodes.contains_key(key) && key.object_id == inode_number ==> key.item_type
            != ITEM_TYPE_DIRECTORY_ENTRY
}

/// What a scan of the entries of a directory tells.
proof fn lemma_empty_directory(volume: VolumeModel, inode_number: u64)
    requires
        volume.in_order(),
    ensures
        ({
            let items = dir::directory_items(
                volume.blocks(),
                volume.superblock.inode_tree_root_block,
                inode_number,
            );
            &&& items is Ok
            &&& (items->Ok_0.len() == 0) == is_empty_directory(volume.state(), inode_number)
        }),
{
    let low = BafsKey {
        object_id: inode_number,
        item_type: ITEM_TYPE_DIRECTORY_ENTRY,
        offset: 0,
    };
    let high = BafsKey {
        object_id: inode_number,
        item_type: ITEM_TYPE_DIRECTORY_ENTRY,
        offset: u64::MAX,
    };
    let root = volume.superblock.inode_tree_root_block;
    model::lemma_range_matches_map(volume.blocks(), root, low, high);
    let found = model::tree_range(volume.blocks(), root, low, high)->Ok_0;
    let items = volume.state().inodes;
    if found.len() > 0 {
        let key = found[0].key;
        assert(items.contains_key(key));
        key::law_keys_are_ordered_lexicographically(key, low);
        key::law_keys_are_ordered_lexicographically(high, key);
    }
    assert forall|key: BafsKey| #[trigger]
        items.contains_key(key) && key.object_id == inode_number && found.len()
            == 0 implies key.item_type != ITEM_TYPE_DIRECTORY_ENTRY by {
        key::law_keys_are_ordered_lexicographically(key, low);
        key::law_keys_are_ordered_lexicographically(high, key);
    }
}

/// Removing a name leaves the records of files as they are.
proof fn lemma_without_name(contents: VolumeState, directory: u64, name: Seq<char>)
    ensures
        ({
            let after = state::without_name(contents, directory, name);
            &&& after.free == contents.free
            &&& after.total == contents.total
            &&& after.inode_count == contents.inode_count
            &&& forall|key: BafsKey|
                key.item_type != ITEM_TYPE_DIRECTORY_ENTRY ==> #[trigger] after.inodes.contains_key(
                    key,
                ) == contents.inodes.contains_key(key) && (contents.inodes.contains_key(key)
                    ==> after.inodes[key] == contents.inodes[key])
        }),
{
}

/// The nodes that were superseded last are those on the way to an inode.
pub open spec fn inode_superseded(
    before: VolumeModel,
    freed: VolumeModel,
    after: VolumeModel,
    inode_number: u64,
) -> bool {
    &&& volume_model::nodes_kept(before, freed)
    &&& after.superseded == freed.superseded + writing::path_in_inode_tree(
        freed,
        inode::inode_key(inode_number),
    )
}

/// A file with `extent_count` extents can be removed.
spec fn file_fits(volume: VolumeModel, extent_count: nat) -> bool {
    let level = tree::root_level(volume.blocks(), volume.superblock.inode_tree_root_block);
    &&& level < TREE_LEVEL_LIMIT
    &&& free_level_bound(volume, extent_count) < TREE_LEVEL_LIMIT
    &&& volume.next_free + extent_count * extent_cost(volume, extent_count) + level + 1
        <= volume.node_area_end()
}

/// Remove the extents and the inode of a file.
#[verifier::spinoff_prover]
#[verifier::rlimit(40)]
fn remove_file<D: BlockDevice>(
    volume: &mut BafsVolume<D>,
    inode_number: u64,
    extents: &Vec<BafsLeafItem>,
) -> (result: Result<(), BafsError>)
    requires
        store::cache_valid(old(volume).dirty_block_cache@),
    ensures
        final(volume).device == old(volume).device,
        volume_model::worked_on(old(volume)@, final(volume)@, 0, 0),
        result is Ok ==> final(volume).superblock.free_block_count == more_free_blocks(
            old(volume).superblock.free_block_count,
            node::leaf_entries(extents@),
            extents@.len(),
        ),
        ({
            let before = old(volume)@;
            let after = final(volume)@;
            let entries = node::leaf_entries(extents@);
            before.in_order() && lists_extents(before.state(), inode_number, entries)
                && before.state().inodes.contains_key(inode::inode_key(inode_number)) ==> {
                &&& volume_model::nodes_written(before, after)
                &&& match result {
                    Ok(_) => {
                        &&& after.in_order()
                        &&& file_removed(before.state(), after.state(), inode_number)
                        &&& after.next_free <= before.next_free + entries.len() * extent_cost(
                            before,
                            entries.len(),
                        ) + tree::root_level(
                            before.blocks(),
                            before.superblock.inode_tree_root_block,
                        ) + 1
                        &&& volume_model::trees_gain(before, after, 0, entries.len(), 0)
                        &&& exists|freed: VolumeModel| #[trigger]
                            inode_superseded(before, freed, after, inode_number)
                    },
                    Err(error) => error == BafsError::InputOutputError && !old(
                        volume,
                    ).device.reliable() || (error == BafsError::OutOfSpace || error
                        == BafsError::NotSupported) && !file_fits(before, entries.len()),
                }
            }
        }),
{
    let ghost before = volume@;
    let ghost entries = node::leaf_entries(extents@);
    let ghost ready = before.in_order() && lists_extents(before.state(), inode_number, entries)
        && before.state().inodes.contains_key(inode::inode_key(inode_number));
    match free_extents(volume, extents, Ghost(inode_number)) {
        Ok(_) => {},
        Err(error) => {
            return Err(error);
        },
    }
    let ghost freed = volume@;
    let key = BafsKey::new(inode_number, ITEM_TYPE_INODE, 0);
    proof {
        if ready {
            assert(!listed(entries, entries.len() as int, key)) by {
                if listed(entries, entries.len() as int, key) {
                    let i = choose|i: int|
                        0 <= i < entries.len() && (#[trigger] entries[i]).key == key;
                    assert(entries[i].key == extent::extent_key(
                        inode_number,
                        entries[i].key.offset,
                    ));
                }
            }
            assert(freed.state().inodes.contains_key(key));
            volume_model::lemma_root_present(freed, freed.superblock.inode_tree_root_block);
        }
    }
    match check_room(volume, volume.superblock.inode_tree_root_block, 1, 1) {
        Ok(_) => {},
        Err(error) => {
            return Err(error);
        },
    }
    let removed = remove_record(volume, key);
    proof {
        volume_model::lemma_worked_on_joins(before, freed, volume@, 0, 0);
        if ready && removed is Ok {
            lemma_nodes_written_joins(before, freed, volume@);
            volume_model::lemma_nodes_kept(before, freed);
            assert(inode_superseded(before, freed, volume@, inode_number));
            volume_model::lemma_trees_gain_join(
                before,
                freed,
                volume@,
                0,
                entries.len(),
                0,
                0,
                0,
                0,
            );
            lemma_file_removed(
                before.state(),
                freed.state(),
                volume@.state(),
                inode_number,
                entries,
            );
        }
    }
    removed
}

/// The extents of a file stay listed where a name is removed.
proof fn lemma_extents_stay_listed(
    before: VolumeState,
    after: VolumeState,
    inode_number: u64,
    entries: Seq<LeafEntry>,
    directory: u64,
    name: Seq<char>,
)
    requires
        lists_extents(before, inode_number, entries),
        after == state::without_name(before, directory, name),
    ensures
        lists_extents(after, inode_number, entries),
{
    lemma_without_name(before, directory, name);
    assert forall|i: int| 0 <= i < entries.len() implies {
        let key = (#[trigger] entries[i]).key;
        &&& after.inodes.contains_key(key)
        &&& after.inodes[key] == entries[i].value
    } by {
        let key = entries[i].key;
        assert(key == extent::extent_key(inode_number, key.offset));
        assert(before.inodes.contains_key(key));
        assert(after.inodes.contains_key(key));
    }
    assert forall|start: u64| #[trigger]
        after.inodes.contains_key(extent::extent_key(inode_number, start)) implies exists|i: int|
        0 <= i < entries.len() && (#[trigger] entries[i]).key == extent::extent_key(
            inode_number,
            start,
        ) by {
        assert(before.inodes.contains_key(extent::extent_key(inode_number, start)));
    }
}

/// What is left to do once the name is removed fits where the whole work does.
proof fn lemma_rest_fits(before: VolumeModel, named: VolumeModel, extent_count: nat)
    requires
        before.in_order(),
        named.node_area_end() == before.node_area_end(),
        tree::root_level(named.blocks(), named.superblock.inode_tree_root_block)
            <= tree::root_level(before.blocks(), before.superblock.inode_tree_root_block) + 1,
        tree::root_level(named.blocks(), named.superblock.free_extent_tree_root_block)
            == tree::root_level(before.blocks(), before.superblock.free_extent_tree_root_block),
        named.next_free <= before.next_free + 2 * tree::root_level(
            before.blocks(),
            before.superblock.inode_tree_root_block,
        ) + 3,
    ensures
        room_for_unlink(before, extent_count) ==> file_fits(named, extent_count),
        named.next_free + extent_count * extent_cost(named, extent_count) + tree::root_level(
            named.blocks(),
            named.superblock.inode_tree_root_block,
        ) + 1 <= before.next_free + unlink_cost(before, extent_count),
        extent_count * (extent_cost(before, extent_count) + 1) >= 0,
{
    let cost = extent_cost(before, extent_count);
    let new_cost = extent_cost(named, extent_count);
    assert(extent_count * new_cost <= extent_count * (cost + 1)) by (nonlinear_arith)
        requires
            new_cost <= cost + 1,
            extent_count >= 0,
    ;
    assert(extent_count * (cost + 1) >= 0) by (nonlinear_arith)
        requires
            cost >= 0,
            extent_count >= 0,
    ;
}

/// Remove a name, write the inode with one name less or remove the file.
#[verifier::spinoff_prover]
#[verifier::rlimit(60)]
fn unlink_child<D: BlockDevice>(
    volume: &mut BafsVolume<D>,
    directory_inode_number: u64,
    name: &str,
    child_inode: &BafsInode,
    extents: &Vec<BafsLeafItem>,
) -> (result: Result<(), BafsError>)
    requires
        store::cache_valid(old(volume).dirty_block_cache@),
        old(volume).next_free_block + 5000 <= u64::MAX,
        room_error(old(volume)@, old(volume).superblock.inode_tree_root_block, 2, 3) is None,
    ensures
        final(volume).device == old(volume).device,
        volume_model::worked_on(old(volume)@, final(volume)@, 0, 0),
        result is Ok ==> final(volume).superblock.free_block_count == if with_fewer_links(
            *child_inode,
        ).hard_link_count > 0 {
            old(volume).superblock.free_block_count
        } else {
            more_free_blocks(
                old(volume).superblock.free_block_count,
                node::leaf_entries(extents@),
                extents@.len(),
            )
        },
        ({
            let before = old(volume)@;
            let after = final(volume)@;
            let number = child_inode.inode_number;
            before.in_order() && state::entry_of(before.state(), directory_inode_number, name@) is Some
                && inode_in(before, number) == Ok::<BafsInode, BafsError>(*child_inode) && (
            with_fewer_links(*child_inode).hard_link_count == 0 ==> extents_in(before, number)
                == Ok::<Seq<LeafEntry>, BafsError>(node::leaf_entries(extents@))) ==> {
                &&& volume_model::nodes_written(before, after)
                &&& match result {
                    Ok(_) => {
                        &&& after.in_order()
                        &&& unlinked(
                            before.state(),
                            after.state(),
                            directory_inode_number,
                            name@,
                            *child_inode,
                        )
                        &&& after.next_free <= before.next_free + unlink_cost(
                            before,
                            extents@.len(),
                        )
                        &&& volume_model::trees_gain(
                            before,
                            after,
                            2,
                            if with_fewer_links(*child_inode).hard_link_count > 0 {
                                0
                            } else {
                                extents@.len()
                            },
                            0,
                        )
                        &&& exists|named: VolumeModel, freed: VolumeModel| #[trigger]
                            unlink_superseded(
                                before,
                                named,
                                freed,
                                after,
                                directory_inode_number,
                                name@,
                                number,
                            )
                    },
                    Err(error) => error == BafsError::InputOutputError && !old(
                        volume,
                    ).device.reliable() || (error == BafsError::OutOfSpace || error
                        == BafsError::NotSupported) && !room_for_unlink(before, extents@.len()),
                }
            }
        }),
{
    let ghost before = volume@;
    let ghost number = child_inode.inode_number;
    let ghost entries = node::leaf_entries(extents@);
    let ghost ready = before.in_order() && state::entry_of(
        before.state(),
        directory_inode_number,
        name@,
    ) is Some && inode_in(before, number) == Ok::<BafsInode, BafsError>(*child_inode) && (
    with_fewer_links(*child_inode).hard_link_count == 0 ==> extents_in(before, number) == Ok::<
        Seq<LeafEntry>,
        BafsError,
    >(entries));
    let ghost key = inode::inode_key(number);
    proof {
        if ready {
            volume_model::lemma_root_present(before, before.superblock.inode_tree_root_block);
            writing::lemma_inode_record(before, number);
            lemma_extents_listed(before, number);
            lemma_without_name(before.state(), directory_inode_number, name@);
        }
    }
    match remove_entry(volume, directory_inode_number, name) {
        Ok(_) => {},
        Err(error) => {
            return Err(error);
        },
    }
    let ghost named = volume@;
    proof {
        if ready {
            volume_model::lemma_nodes_added(before, named);
            assert(before.tree_ready(before.superblock.free_extent_tree_root_block));
            assert(named.state().inodes.contains_key(key));
            assert(named.state().record_ok(key, named.state().inodes[key]));
            volume_model::lemma_root_present(named, named.superblock.inode_tree_root_block);
            lemma_rest_fits(before, named, extents@.len());
        }
    }
    let mut fewer = *child_inode;
    fewer.hard_link_count = if child_inode.hard_link_count == 0 {
        0
    } else {
        child_inode.hard_link_count - 1
    };
    assert(fewer == with_fewer_links(*child_inode));
    if fewer.hard_link_count > 0 {
        proof {
            inode::lemma_inode_len(fewer);
            inode::law_inode_round_trip(fewer);
        }
        match check_room(volume, volume.superblock.inode_tree_root_block, 2, 3) {
            Ok(_) => {},
            Err(error) => {
                return Err(error);
            },
        }
        proof {
            if ready {
                let value = inode::inode_bytes(fewer);
                state::lemma_with_plain_record(named.state(), key, value);
                assert(writing::record_admitted(named, key, value));
            }
        }
        let written = volume_write_inode(volume, &fewer);
        proof {
            volume_model::lemma_worked_on_joins(before, named, volume@, 0, 0);
            if ready && written is Ok {
                lemma_nodes_written_joins(before, named, volume@);
                volume_model::lemma_trees_gain_join(before, named, volume@, 1, 0, 0, 1, 0, 0);
                assert(unlink_superseded(
                    before,
                    named,
                    named,
                    volume@,
                    directory_inode_number,
                    name@,
                    number,
                ));
            }
        }
        return written;
    }
    proof {
        if ready {
            lemma_extents_stay_listed(
                before.state(),
                named.state(),
                number,
                entries,
                directory_inode_number,
                name@,
            );
        }
    }
    let removed = remove_file(volume, child_inode.inode_number, extents);
    proof {
        volume_model::lemma_worked_on_joins(before, named, volume@, 0, 0);
        if ready {
            lemma_nodes_written_joins(before, named, volume@);
            if removed is Ok {
                volume_model::lemma_trees_gain_join(
                    before,
                    named,
                    volume@,
                    1,
                    0,
                    0,
                    0,
                    extents@.len(),
                    0,
                );
                fanout::lemma_gains_more(
                    before.blocks(),
                    before.superblock.inode_tree_root_block,
                    volume@.blocks(),
                    volume@.superblock.inode_tree_root_block,
                    before.next_free as int,
                    volume@.next_free as int,
                    1,
                    2,
                );
                let freed = choose|freed: VolumeModel| #[trigger]
                    inode_superseded(named, freed, volume@, number);
                assert(unlink_superseded(
                    before,
                    named,
                    freed,
                    volume@,
                    directory_inode_number,
                    name@,
                    number,
                ));
            }
        }
    }
    removed
}

/// The number of extents that are freed when a name of `inode` is removed.
pub open spec fn extents_to_free(volume: VolumeModel, inode: BafsInode) -> nat {
    if with_fewer_links(inode).hard_link_count > 0 {
        0
    } else {
        extents_in(volume, inode.inode_number)->Ok_0.len()
    }
}

/// The error with which removing a name of the inode `number` is refused.
pub open spec fn child_refusal(volume: VolumeModel, number: u64, inode: BafsInode) -> Option<
    BafsError,
> {
    let root = volume.superblock.inode_tree_root_block;
    let items = dir::directory_items(volume.blocks(), root, number);
    if inode.spec_is_directory() && items is Err {
        Some(items->Err_0)
    } else if inode.spec_is_directory() && items->Ok_0.len() > 0 {
        Some(BafsError::DirectoryNotEmpty)
    } else if with_fewer_links(inode).hard_link_count == 0 && extents_in(volume, number) is Err {
        Some(extents_in(volume, number)->Err_0)
    } else {
        room_error(volume, root, 2, 3)
    }
}

/// The error with which removing a name is refused.
pub open spec fn unlink_refusal(
    volume: VolumeModel,
    directory: u64,
    name: Seq<char>,
) -> Option<BafsError> {
    match reading::entry_in_directory(volume, directory, name) {
        Err(error) => Some(error),
        Ok(None) => Some(BafsError::NotFound),
        Ok(Some(entry)) => match inode_in(volume, entry.child_inode_number) {
            Err(BafsError::NotFound) => room_error(
                volume,
                volume.superblock.inode_tree_root_block,
                2,
                3,
            ),
            Err(error) => Some(error),
            Ok(inode) => child_refusal(volume, entry.child_inode_number, inode),
        },
    }
}

/// What removing a name from a volume in order leads to, where it is not refused.
pub open spec fn unlink_outcome(
    before: VolumeModel,
    after: VolumeModel,
    reliable: bool,
    directory: u64,
    name: Seq<char>,
    result: Result<(), BafsError>,
) -> bool {
    let child = state::entry_of(before.state(), directory, name)->Some_0.child_inode_number;
    let inode = inode_in(before, child)->Ok_0;
    match result {
        Ok(_) => {
            &&& inode_in(before, child) is Ok
            &&& unlinked(before.state(), after.state(), directory, name, inode)
            &&& after.next_free <= before.next_free + unlink_cost(
                before,
                extents_to_free(before, inode),
            )
            &&& volume_model::trees_gain(before, after, 2, extents_to_free(before, inode), 0)
            &&& exists|named: VolumeModel, freed: VolumeModel| #[trigger]
                unlink_superseded(before, named, freed, after, directory, name, child)
            &&& after.superblock.free_block_count == if with_fewer_links(inode).hard_link_count
                > 0 {
                before.superblock.free_block_count
            } else {
                more_free_blocks(
                    before.superblock.free_block_count,
                    extents_in(before, child)->Ok_0,
                    extents_in(before, child)->Ok_0.len(),
                )
            }
        },
        Err(error) => {
            ||| error == BafsError::InputOutputError && !reliable && after.state()
                == before.state()
            ||| error == BafsError::NotFound && inode_in(before, child) is Err && after.state()
                == state::without_name(before.state(), directory, name)
            ||| (error == BafsError::OutOfSpace || error == BafsError::NotSupported) && inode_in(
                before,
                child,
            ) is Ok && !room_for_unlink(before, extents_to_free(before, inode)) && after.state()
                == before.state()
        },
    }
}

/// The name stands for an inode that is not there.
pub open spec fn is_dangling(volume: VolumeModel, directory: u64, name: Seq<char>) -> bool {
    reading::entry_in_directory(volume, directory, name) matches Ok(Some(entry)) && inode_in(
        volume,
        entry.child_inode_number,
    ) == Err::<BafsInode, BafsError>(BafsError::NotFound)
}

/// What removing a name leads to, refused or not.
pub open spec fn removal_outcome(
    before: VolumeModel,
    after: VolumeModel,
    reliable: bool,
    directory: u64,
    name: Seq<char>,
    result: Result<(), BafsError>,
) -> bool {
    &&& match unlink_refusal(before, directory, name) {
        Some(error) => {
            &&& result == Err::<(), BafsError>(error) || result == Err::<(), BafsError>(
                BafsError::InputOutputError,
            ) && !reliable
            &&& after == before
        },
        None => {
            &&& result is Err && !(result == Err::<(), BafsError>(BafsError::NotFound)
                && is_dangling(before, directory, name)) ==> after.superblock
                == before.superblock
            &&& before.in_order() ==> unlink_outcome(
                before,
                after,
                reliable,
                directory,
                name,
                result,
            )
        },
    }
    &&& before.in_order() ==> {
        &&& after.in_order()
        &&& volume_model::same_session(before, after)
        &&& volume_model::nodes_kept(before, after)
    }
}

/// On a volume in order, a directory is refused to be removed where names are left
/// in it.
pub proof fn law_directory_must_be_empty(volume: VolumeModel, number: u64, inode: BafsInode)
    requires
        volume.in_order(),
        inode.spec_is_directory(),
    ensures
        (child_refusal(volume, number, inode) == Some(BafsError::DirectoryNotEmpty))
            == !is_empty_directory(volume.state(), number),
{
    lemma_empty_directory(volume, number);
    lemma_extents_listed(volume, number);
    volume_model::lemma_root_present(volume, volume.superblock.inode_tree_root_block);
}

/// Remove the name of an inode that is not there.
#[verifier::spinoff_prover]
fn unlink_dangling<D: BlockDevice>(
    volume: &mut BafsVolume<D>,
    directory_inode_number: u64,
    name: &str,
) -> (result: Result<(), BafsError>)
    requires
        store::cache_valid(old(volume).dirty_block_cache@),
    ensures
        final(volume).device == old(volume).device,
        volume_model::worked_on(old(volume)@, final(volume)@, 0, 0),
        result is Err ==> final(volume).superblock == old(volume).superblock,
        room_error(
            old(volume)@,
            old(volume).superblock.inode_tree_root_block,
            2,
            3,
        ) matches Some(error) ==> final(volume)@ == old(volume)@ && (result == Err::<
            (),
            BafsError,
        >(error) || result == Err::<(), BafsError>(BafsError::InputOutputError) && !old(
            volume,
        ).device.reliable()),
        old(volume)@.in_order() && state::entry_of(
            old(volume)@.state(),
            directory_inode_number,
            name@,
        ) is Some ==> {
            let before = old(volume)@;
            let after = final(volume)@;
            let refusal = room_error(before, before.superblock.inode_tree_root_block, 2, 3);
            &&& after.in_order()
            &&& volume_model::nodes_kept(before, after)
            &&& match result {
                Ok(_) => refusal is None && after.state() == state::without_name(
                    before.state(),
                    directory_inode_number,
                    name@,
                ),
                Err(error) => after == before && (refusal == Some(error) || error
                    == BafsError::InputOutputError && !old(volume).device.reliable()),
            }
        },
{
    proof {
        if volume@.in_order() {
            volume_model::lemma_root_present(volume@, volume@.superblock.inode_tree_root_block);
        }
    }
    match check_room(volume, volume.superblock.inode_tree_root_block, 2, 3) {
        Ok(_) => {},
        Err(error) => {
            return Err(error);
        },
    }
    let ghost before = volume@;
    let removed = remove_entry(volume, directory_inode_number, name);
    proof {
        if before.in_order() && state::entry_of(
            before.state(),
            directory_inode_number,
            name@,
        ) is Some && removed is Ok {
            volume_model::lemma_nodes_kept(before, volume@);
        }
    }
    removed
}

/// Remove a name from a directory. Where it was the last name of a file, the
/// file's blocks are freed; a directory must be empty.
///
/// Where the work cannot be finished, the superblock is put back.
#[verifier::spinoff_prover]
#[verifier::rlimit(60)]
pub fn volume_unlink_directory_entry<D: BlockDevice>(
    volume: &mut BafsVolume<D>,
    directory_inode_number: u64,
    filename: &str,
) -> (result: Result<(), BafsError>)
    requires
        store::cache_valid(old(volume).dirty_block_cache@),
    ensures
        final(volume).device == old(volume).device,
        volume_model::worked_on(old(volume)@, final(volume)@, 0, 0),
        removal_outcome(
            old(volume)@,
            final(volume)@,
            old(volume).device.reliable(),
            directory_inode_number,
            filename@,
            result,
        ),
{
    let ghost before = volume@;
    proof {
        if before.in_order() {
            volume_model::lemma_tree_lookup(
                before,
                before.superblock.inode_tree_root_block,
                dir::entry_key(directory_inode_number, filename@),
            );
            state::lemma_entry_of(before.state(), directory_inode_number, filename@);
        }
    }
    let child_entry = match dir::directory_lookup_entry(
        &volume.device,
        &volume.dirty_block_cache,
        volume.superblock.inode_tree_root_block,
        directory_inode_number,
        filename,
    ) {
        Ok(Some(child_entry)) => child_entry,
        Ok(None) => {
            return Err(BafsError::NotFound);
        },
        Err(error) => {
            return Err(error);
        },
    };
    let child_number: u64 = child_entry.child_inode_number;
    proof {
        if before.in_order() {
            writing::lemma_inode_record(before, child_number);
            lemma_extents_listed(before, child_number);
        }
    }
    let child_inode = match volume_read_inode(volume, child_number) {
        Ok(child_inode) => child_inode,
        Err(error) => {
            if error == BafsError::NotFound {
                match unlink_dangling(volume, directory_inode_number, filename) {
                    Ok(_) => {},
                    Err(refusal) => {
                        return Err(refusal);
                    },
                }
            }
            return Err(error);
        },
    };
    if child_inode.is_directory() {
        match dir::directory_is_empty(
            &volume.device,
            &volume.dirty_block_cache,
            volume.superblock.inode_tree_root_block,
            child_number,
        ) {
            Ok(empty) => {
                if !empty {
                    return Err(BafsError::DirectoryNotEmpty);
                }
            },
            Err(error) => {
                return Err(error);
            },
        }
    }
    let extents: Vec<BafsLeafItem> = if child_inode.hard_link_count <= 1 {
        match tree::iterate_tree_range(
            &volume.device,
            &volume.dirty_block_cache,
            volume.superblock.inode_tree_root_block,
            BafsKey::new(child_number, ITEM_TYPE_EXTENT_DATA, 0),
            BafsKey::new(child_number, ITEM_TYPE_EXTENT_DATA, u64::MAX),
        ) {
            Ok(extents) => extents,
            Err(error) => {
                return Err(error);
            },
        }
    } else {
        Vec::new()
    };
    proof {
        if before.in_order() {
            assert(node::leaf_entries(extents@).len() == extents@.len());
            assert(extents_to_free(before, child_inode) == extents@.len());
        }
    }
    match check_room(volume, volume.superblock.inode_tree_root_block, 2, 3) {
        Ok(_) => {},
        Err(error) => {
            return Err(error);
        },
    }
    let old_superblock = volume.superblock;
    match unlink_child(volume, directory_inode_number, filename, &child_inode, &extents) {
        Ok(_) => {
            proof {
                if before.in_order() {
                    volume_model::lemma_nodes_kept(before, volume@);
                }
            }
            Ok(())
        },
        Err(error) => {
            let ghost unsaved = volume@;
            volume.superblock = old_superblock;
            proof {
                volume_model::lemma_superblock_restored(before, unsaved, volume@, 0, 0);
                if before.in_order() {
                    volume_model::lemma_nodes_kept(before, volume@);
                    volume_model::lemma_work_given_up(before, volume@, 0, 0);
                }
            }
            Err(error)
        },
    }
}

} // verus!
