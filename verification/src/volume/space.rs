//! Which blocks a write takes, and when there are enough of them.

use vstd::prelude::*;
use crate::block_io;
use crate::btree::key::BafsKey;
use crate::btree::tree;
use crate::error::BafsError;
use crate::extent;
use crate::extent::BafsExtentData;
use crate::state;
use crate::state::VolumeState;
use super::beginnings;
use super::bytewise;
use super::model as volume_model;
use super::refusals;
use super::unlinking;
use super::writing;
use super::{inode_in, VolumeModel};

verus! {

/// `count` blocks in a row, from `first` on, are free.
pub open spec fn free_in_a_row(contents: VolumeState, first: u64, count: nat) -> bool {
    &&& first + count <= contents.total
    &&& forall|address: u64|
        first <= address < first + count ==> #[trigger] extent::is_free(contents.free, address)
}

/// The level of the tree of checksums.
pub open spec fn checksum_level(volume: VolumeModel) -> nat {
    tree::root_level(volume.blocks(), volume.superblock.checksum_tree_root_block)
}

/// There are enough blocks for the tree nodes that a write of `count` data blocks
/// makes.
pub open spec fn room_for_nodes(volume: VolumeModel, count: nat) -> bool {
    &&& count <= 8_000_000
    &&& refusals::inode_level(volume) < 253
    &&& refusals::free_level(volume) < 253
    &&& checksum_level(volume) + 4 < 253
    &&& volume.next_free + 4 * refusals::inode_level(volume) + 3 * refusals::free_level(volume)
        + 12 + count * (2 * checksum_level(volume) + 11) <= beginnings::first_data_block(
        volume.superblock.total_block_count,
    )
}

/// Free blocks in a row lie in one free extent.
proof fn lemma_row_is_in_one_run(contents: VolumeState, first: u64, count: nat) -> (key: BafsKey)
    requires
        extent::free_map_ok(contents.free),
        extent::runs_apart(contents.free),
        count > 0,
        first + count <= u64::MAX,
        free_in_a_row(contents, first, count),
    ensures
        contents.free.contains_key(key),
        key.offset <= first,
        first + count <= key.offset + extent::run_at(contents.free, key).block_count,
    decreases count,
{
    reveal(extent::runs_apart);
    let last = (first + count - 1) as u64;
    assert(extent::is_free(contents.free, last));
    let key = choose|key: BafsKey|
        #![trigger contents.free.contains_key(key)]
        contents.free.contains_key(key) && key.offset <= last < key.offset + extent::run_at(
            contents.free,
            key,
        ).block_count;
    if count > 1 {
        let earlier = lemma_row_is_in_one_run(contents, first, (count - 1) as nat);
        if earlier.offset < key.offset {
            assert(earlier.offset + extent::run_at(contents.free, earlier).block_count
                < key.offset);
        } else if key.offset < earlier.offset {
            assert(key.offset + extent::run_at(contents.free, key).block_count < earlier.offset);
        }
        assert(key == extent::free_key(key.offset));
        assert(earlier == extent::free_key(earlier.offset));
    }
    key
}

/// A write to a regular file succeeds, whatever the file holds, where as many blocks in
/// a row as the data fills are free, and there is room for the tree nodes.
#[verifier::spinoff_prover]
#[verifier::rlimit(40)]
pub proof fn law_write_needs_blocks_only(
    before: VolumeModel,
    after: VolumeModel,
    inode_number: u64,
    offset: u64,
    data: Seq<u8>,
    outcome: Result<usize, BafsError>,
    first: u64,
)
    requires
        before.in_order(),
        extent::runs_apart(before.state().free),
        inode_in(before, inode_number) is Ok,
        inode_in(before, inode_number)->Ok_0.posix_mode & 0o170000 == 0o100000,
        inode_in(before, inode_number)->Ok_0.allocated_block_count + (data.len() + 4095) / 4096
            <= u64::MAX,
        data.len() > 0,
        free_in_a_row(before.state(), first, (data.len() + 4095) / 4096),
        room_for_nodes(before, (data.len() + 4095) / 4096),
        writing::write_outcome(before, after, true, inode_number, offset, data, outcome),
    ensures
        outcome is Ok,
        outcome->Ok_0 == data.len(),
{
    let count: nat = ((data.len() + 4095) / 4096) as nat;
    let root = before.superblock.checksum_tree_root_block;
    let level = checksum_level(before);
    let highest: nat = level + 4;
    beginnings::law_areas_of_a_volume(before.superblock.total_block_count);
    volume_model::lemma_root_present(before, root);
    refusals::lemma_few_levels(count);
    assert(volume_model::tree_grown(before, root, level, 0));
    assert(writing::stays_below(before, count, highest));
    let key = lemma_row_is_in_one_run(before.state(), first, count);
    assert(before.state().free.contains_key(key));
    assert(state::has_free_run(before.state().free, count as u64));
    assert(count * (2 * highest + 3) == count * (2 * level + 11)) by (nonlinear_arith)
        requires
            highest == level + 4,
    ;
    assert(writing::room_below(before, count, highest));
    bytewise::law_write_needs_room_only(before, after, inode_number, offset, data, outcome);
}

/// A write takes the lowest blocks in a row that are free, as many as its data fills.
/// These are not free any more, and all others are as they were; and the file has an
/// extent of them, which begins where the data was written.
#[verifier::spinoff_prover]
#[verifier::rlimit(40)]
pub proof fn law_write_takes_the_lowest_row(
    before: VolumeModel,
    after: VolumeModel,
    reliable: bool,
    inode_number: u64,
    offset: u64,
    data: Seq<u8>,
    outcome: Result<usize, BafsError>,
) -> (first: u64)
    requires
        before.in_order(),
        extent::runs_apart(before.state().free),
        data.len() > 0,
        offset + data.len() <= u64::MAX,
        outcome is Ok,
        writing::write_outcome(before, after, reliable, inode_number, offset, data, outcome),
    ensures
        ({
            let count = (data.len() + 4095) / 4096;
            &&& free_in_a_row(before.state(), first, count)
            &&& forall|lower: u64|
                lower < first ==> !#[trigger] free_in_a_row(before.state(), lower, count)
            &&& forall|address: u64| #[trigger]
                extent::is_free(after.state().free, address) == (extent::is_free(
                    before.state().free,
                    address,
                ) && !(first <= address < first + count))
            &&& after.state().inodes.contains_key(extent::extent_key(inode_number, offset))
            &&& extent::extent_from(
                after.state().inodes[extent::extent_key(inode_number, offset)],
            ) == (BafsExtentData {
                logical_byte_offset: offset,
                first_disk_block: first,
                block_count: count as u64,
                extent_flags: 0,
                reserved: 0,
            })
        }),
        extent::runs_apart(after.state().free),
{
    let count: nat = ((data.len() + 4095) / 4096) as nat;
    let free = before.state().free;
    let item = bytewise::lemma_written(
        before,
        after,
        reliable,
        inode_number,
        offset,
        data,
        outcome,
    );
    assert(count == block_io::blocks_for(data.len()));
    let first = item.key.offset;
    let taken = state::with_blocks_taken(before.state(), item, count as u64);
    state::lemma_take_blocks(before.state(), item, count as u64);
    state::lemma_with_data(taken, first, data, count, count);
    extent::law_allocation_takes_free_blocks(free, item, count as u64);
    extent::law_allocation_keeps_runs_apart(free, item, count as u64);
    assert(after.state().free == taken.free);
    extent::law_extent_round_trip(
        BafsExtentData {
            logical_byte_offset: offset,
            first_disk_block: first,
            block_count: count as u64,
            extent_flags: 0,
            reserved: 0,
        },
    );
    assert(free_in_a_row(before.state(), first, count));
    assert forall|lower: u64| lower < first implies !#[trigger] free_in_a_row(
        before.state(),
        lower,
        count,
    ) by {
        if free_in_a_row(before.state(), lower, count) {
            let key = lemma_row_is_in_one_run(before.state(), lower, count);
            assert(free.contains_key(key));
            assert(key.offset < first);
        }
    }
    first
}

/// After a name was removed, no two free extents touch each other if none did before:
/// the blocks of the file can be taken again together with those beside them.
pub proof fn law_removal_joins_free_blocks(
    before: VolumeModel,
    after: VolumeModel,
    reliable: bool,
    directory: u64,
    name: Seq<char>,
    result: Result<(), BafsError>,
)
    requires
        before.in_order(),
        extent::runs_apart(before.state().free),
        unlinking::removal_outcome(before, after, reliable, directory, name, result),
        result is Ok,
    ensures
        extent::runs_apart(after.state().free),
{
    let child = state::entry_of(before.state(), directory, name)->Some_0.child_inode_number;
    let inode = inode_in(before, child)->Ok_0;
    assert(unlinking::unlinked(before.state(), after.state(), directory, name, inode));
}

/// A write for which there are not enough free blocks in a row is refused, and changes
/// no file.
pub proof fn law_write_fails_without_blocks(
    before: VolumeModel,
    after: VolumeModel,
    inode_number: u64,
    offset: u64,
    data: Seq<u8>,
    outcome: Result<usize, BafsError>,
)
    requires
        before.in_order(),
        inode_in(before, inode_number) is Ok,
        inode_in(before, inode_number)->Ok_0.posix_mode & 0o170000 == 0o100000,
        inode_in(before, inode_number)->Ok_0.allocated_block_count + (data.len() + 4095) / 4096
            <= u64::MAX,
        data.len() > 0,
        forall|first: u64|
            !#[trigger] free_in_a_row(before.state(), first, (data.len() + 4095) / 4096),
        refusals::free_level(before) < 253,
        before.next_free + 3 * refusals::free_level(before) + 4 <= beginnings::first_data_block(
            before.superblock.total_block_count,
        ),
        writing::write_outcome(before, after, true, inode_number, offset, data, outcome),
    ensures
        outcome == Err::<usize, BafsError>(BafsError::OutOfSpace),
        after.superblock == before.superblock,
        after.state().inodes == before.state().inodes,
{
    let count: nat = ((data.len() + 4095) / 4096) as nat;
    let root = before.superblock.free_extent_tree_root_block;
    let free = before.state().free;
    beginnings::law_areas_of_a_volume(before.superblock.total_block_count);
    volume_model::lemma_root_present(before, root);
    assert(count == block_io::blocks_for(data.len()));
    extent::law_allocation_is_first_fit(before.blocks(), root, count as u64);
    if extent::allocation_choice(before.blocks(), root, count as u64) is Ok {
        let item = extent::allocation_choice(before.blocks(), root, count as u64)->Ok_0;
        extent::law_allocation_takes_free_blocks(free, item, count as u64);
        assert(free_in_a_row(before.state(), item.key.offset, count));
    }
    assert(writing::space_error(before, count as u64) == Some(BafsError::OutOfSpace));
}

} // verus!
