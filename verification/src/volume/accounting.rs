//! The count of free blocks in the superblock is the number of blocks that are free:
//! it is so on a new volume, and every operation keeps it so.

use vstd::prelude::*;
use crate::block_io;
use crate::block_io::BlockWrite;
use crate::btree::key::BafsKey;
use crate::btree::node::LeafEntry;
use crate::error::BafsError;
use crate::extent;
use crate::extent::BafsFreeExtent;
use crate::state;
use crate::state::VolumeState;
use super::beginnings;
use super::bytewise;
use super::durability;
use super::formatting;
use super::formatting::BafsFormatOptions;
use super::laws;
use super::mounting;
use super::naming;
use super::naming::NewChild;
use super::unlinking;
use super::writing;
use super::{inode_in, VolumeModel};

verus! {

/// The blocks that are free.
pub open spec fn free_blocks(contents: VolumeState) -> Set<u64> {
    Set::new(|address: u64| extent::is_free(contents.free, address))
}

/// The superblock counts the blocks that are free.
pub open spec fn counts_free_blocks(volume: VolumeModel) -> bool {
    volume.superblock.free_block_count == free_blocks(volume.state()).len()
}

/// There are as many addresses in a range as it is long.
proof fn lemma_addresses_len(start: int, end: int)
    requires
        0 <= start <= end <= u64::MAX + 1,
    ensures
        durability::addresses(start, end).finite(),
        durability::addresses(start, end).len() == end - start,
    decreases end - start,
{
    if start == end {
        assert(durability::addresses(start, end) =~= Set::<u64>::empty());
    } else {
        lemma_addresses_len(start, end - 1);
        assert(durability::addresses(start, end) =~= durability::addresses(
            start,
            end - 1,
        ).insert((end - 1) as u64));
    }
}

/// No more blocks are free than there are.
proof fn lemma_free_blocks_are_few(contents: VolumeState)
    requires
        contents.ok(),
    ensures
        free_blocks(contents).finite(),
        free_blocks(contents).len() <= contents.total,
{
    let all = durability::addresses(0, contents.total as int);
    lemma_addresses_len(0, contents.total as int);
    assert forall|address: u64| free_blocks(contents).contains(address) implies all.contains(
        address,
    ) by {
        assert(extent::is_free(contents.free, address));
        let key = choose|key: BafsKey|
            #![trigger contents.free.contains_key(key)]
            contents.free.contains_key(key) && key.offset <= address < key.offset
                + extent::run_at(contents.free, key).block_count;
        assert(contents.free.contains_key(key));
    }
    vstd::set_lib::lemma_len_subset(free_blocks(contents), all);
}

/// A write takes from the free blocks as many as its data fills, and the count goes
/// down by as many.
pub proof fn law_write_takes_its_blocks(
    before: VolumeModel,
    after: VolumeModel,
    reliable: bool,
    inode_number: u64,
    offset: u64,
    data: Seq<u8>,
    outcome: Result<usize, BafsError>,
)
    requires
        before.in_order(),
        counts_free_blocks(before),
        data.len() > 0,
        offset + data.len() <= u64::MAX,
        outcome is Ok,
        writing::write_outcome(before, after, reliable, inode_number, offset, data, outcome),
    ensures
        counts_free_blocks(after),
        free_blocks(after.state()).subset_of(free_blocks(before.state())),
        free_blocks(after.state()).len() + (data.len() + 4095) / 4096 == free_blocks(
            before.state(),
        ).len(),
{
    let item = bytewise::lemma_written(
        before,
        after,
        reliable,
        inode_number,
        offset,
        data,
        outcome,
    );
    let count = block_io::blocks_for(data.len());
    let first = item.key.offset;
    let taken = state::with_blocks_taken(before.state(), item, count as u64);
    state::lemma_take_blocks(before.state(), item, count as u64);
    state::lemma_with_data(taken, first, data, count, count);
    extent::law_allocation_takes_free_blocks(before.state().free, item, count as u64);
    assert(after.state().free == taken.free);
    let was = free_blocks(before.state());
    let is = free_blocks(after.state());
    let range = durability::addresses(first as int, first + count);
    lemma_addresses_len(first as int, first + count);
    lemma_free_blocks_are_few(before.state());
    lemma_free_blocks_are_few(after.state());
    assert(is.disjoint(range));
    assert(was =~= is.union(range)) by {
        assert forall|address: u64| was.contains(address) == is.union(range).contains(address) by {
            assert(extent::is_free(taken.free, address) <==> extent::is_free(
                before.state().free,
                address,
            ) && !(first <= address < first + count));
            if first <= address < first + count {
                assert(extent::is_free(before.state().free, address));
            }
        }
    }
    vstd::set_lib::lemma_set_disjoint_lens(is, range);
}

/// A creation, whether it succeeds or not, leaves the free blocks and their count as they
/// are.
pub proof fn law_creation_takes_no_blocks(
    before: VolumeModel,
    after: VolumeModel,
    reliable: bool,
    directory: u64,
    name: Seq<char>,
    child: NewChild,
    result: Result<u64, BafsError>,
)
    requires
        before.in_order(),
        counts_free_blocks(before),
        naming::create_outcome(before, after, reliable, directory, name, child, result),
    ensures
        counts_free_blocks(after),
        free_blocks(after.state()) == free_blocks(before.state()),
{
    assert(after.state().free == before.state().free);
}

/// A write that fails leaves the free blocks and their count as they are.
pub proof fn law_failed_write_takes_no_blocks(
    before: VolumeModel,
    after: VolumeModel,
    reliable: bool,
    inode_number: u64,
    offset: u64,
    data: Seq<u8>,
    outcome: Result<usize, BafsError>,
)
    requires
        before.in_order(),
        counts_free_blocks(before),
        outcome is Err,
        writing::write_outcome(before, after, reliable, inode_number, offset, data, outcome),
    ensures
        counts_free_blocks(after),
        free_blocks(after.state()) == free_blocks(before.state()),
{
}

/// The blocks that the first `count` of the extents hold.
spec fn held_blocks(contents: VolumeState, entries: Seq<LeafEntry>, count: int) -> Set<u64> {
    Set::new(|address: u64| unlinking::held(contents, entries, count, address))
}

/// The blocks of the extents of a file are counted as they are freed.
#[verifier::spinoff_prover]
#[verifier::rlimit(40)]
proof fn lemma_extents_counted(
    contents: VolumeState,
    inode_number: u64,
    entries: Seq<LeafEntry>,
    count: nat,
    free_count: u64,
)
    requires
        contents.ok(),
        unlinking::lists_extents(contents, inode_number, entries),
        count <= entries.len(),
        free_count == free_blocks(contents).len(),
    ensures
        held_blocks(contents, entries, count as int).finite(),
        free_blocks(contents).union(held_blocks(contents, entries, count as int)).len()
            == unlinking::more_free_blocks(free_count, entries, count),
        unlinking::more_free_blocks(free_count, entries, count) <= contents.total,
    decreases count,
{
    let free = free_blocks(contents);
    let held = held_blocks(contents, entries, count as int);
    let whole = free.union(held);
    lemma_free_blocks_are_few(contents);
    let all = durability::addresses(0, contents.total as int);
    lemma_addresses_len(0, contents.total as int);
    assert forall|address: u64| held.contains(address) implies all.contains(address) by {
        let i = choose|i: int|
            0 <= i < count && contents.uses((#[trigger] entries[i]).key, address);
        let key = entries[i].key;
        assert(contents.inodes.contains_key(key));
        assert(contents.record_ok(key, contents.inodes[key]));
    }
    vstd::set_lib::lemma_len_subset(held, all);
    assert forall|address: u64| whole.contains(address) implies all.contains(address) by {
        if free.contains(address) {
            assert(extent::is_free(contents.free, address));
            let key = choose|key: BafsKey|
                #![trigger contents.free.contains_key(key)]
                contents.free.contains_key(key) && key.offset <= address < key.offset
                    + extent::run_at(contents.free, key).block_count;
            assert(contents.free.contains_key(key));
        }
    }
    vstd::set_lib::lemma_len_subset(whole, all);
    if count == 0 {
        assert(held =~= Set::<u64>::empty());
        assert(whole =~= free);
    } else {
        let last = (count - 1) as nat;
        let key = entries[last as int].key;
        assert(contents.inodes.contains_key(key));
        assert(contents.record_ok(key, contents.inodes[key]));
        assert(key == extent::extent_key(inode_number, key.offset));
        let run = extent::extent_from(entries[last as int].value);
        let range = durability::addresses(
            run.first_disk_block as int,
            run.first_disk_block + run.block_count,
        );
        lemma_addresses_len(
            run.first_disk_block as int,
            run.first_disk_block + run.block_count,
        );
        lemma_extents_counted(contents, inode_number, entries, last, free_count);
        let earlier = held_blocks(contents, entries, last as int);
        let rest = free.union(earlier);
        assert forall|address: u64| #[trigger] range.contains(address) implies !rest.contains(
            address,
        ) by {
            assert(contents.uses(key, address));
            if earlier.contains(address) {
                let i = choose|i: int|
                    0 <= i < last && contents.uses((#[trigger] entries[i]).key, address);
                assert(entries[i].key.offset < entries[last as int].key.offset);
                assert(contents.uses(entries[i].key, address));
            }
        }
        assert(rest.disjoint(range));
        assert(whole =~= rest.union(range)) by {
            assert forall|address: u64| whole.contains(address) == rest.union(range).contains(
                address,
            ) by {
                assert(range.contains(address) == contents.uses(key, address));
                if held.contains(address) {
                    let i = choose|i: int|
                        0 <= i < count && contents.uses((#[trigger] entries[i]).key, address);
                    if i < last {
                        assert(contents.uses(entries[i].key, address));
                        assert(earlier.contains(address));
                    }
                }
                if earlier.contains(address) {
                    let i = choose|i: int|
                        0 <= i < last && contents.uses((#[trigger] entries[i]).key, address);
                    assert(contents.uses(entries[i].key, address));
                    assert(held.contains(address));
                }
                if range.contains(address) {
                    assert(contents.uses(entries[last as int].key, address));
                    assert(held.contains(address));
                }
            }
        }
        assert(rest.finite());
        vstd::set_lib::lemma_set_disjoint_lens(rest, range);
    }
}

/// Removing a name frees the blocks of the file that it was the last one of, and no
/// others, and the count goes up by as many.
#[verifier::spinoff_prover]
#[verifier::rlimit(40)]
pub proof fn law_removal_returns_its_blocks(
    before: VolumeModel,
    after: VolumeModel,
    reliable: bool,
    directory: u64,
    name: Seq<char>,
    result: Result<(), BafsError>,
)
    requires
        before.in_order(),
        counts_free_blocks(before),
        unlinking::removal_outcome(before, after, reliable, directory, name, result),
        result is Ok,
    ensures
        counts_free_blocks(after),
        free_blocks(before.state()).subset_of(free_blocks(after.state())),
{
    assert(unlinking::unlink_refusal(before, directory, name) is None);
    let child = state::entry_of(before.state(), directory, name)->Some_0.child_inode_number;
    let inode = inode_in(before, child)->Ok_0;
    writing::lemma_inode_record(before, child);
    unlinking::lemma_extents_listed(before, child);
    let entries = unlinking::extents_in(before, child)->Ok_0;
    let contents = before.state();
    let named = state::without_name(contents, directory, name);
    if unlinking::with_fewer_links(inode).hard_link_count > 0 {
        assert(after.state().free == contents.free);
    } else {
        lemma_extents_counted(
            contents,
            child,
            entries,
            entries.len(),
            before.superblock.free_block_count,
        );
        let whole = free_blocks(contents).union(
            held_blocks(contents, entries, entries.len() as int),
        );
        assert(free_blocks(after.state()) =~= whole) by {
            assert forall|address: u64| free_blocks(after.state()).contains(address)
                == whole.contains(address) by {
                lemma_file_blocks_are_held(contents, named, child, entries, address);
                assert(extent::is_free(after.state().free, address) == (extent::is_free(
                    named.free,
                    address,
                ) || unlinking::file_uses(named, child, address)));
            }
        }
    }
}

/// The blocks of a file are those that its extents hold, whatever names it has.
proof fn lemma_file_blocks_are_held(
    contents: VolumeState,
    named: VolumeState,
    inode_number: u64,
    entries: Seq<LeafEntry>,
    address: u64,
)
    requires
        unlinking::lists_extents(contents, inode_number, entries),
        exists|directory: u64, name: Seq<char>|
            named == #[trigger] state::without_name(contents, directory, name),
    ensures
        unlinking::file_uses(named, inode_number, address) == unlinking::held(
            contents,
            entries,
            entries.len() as int,
            address,
        ),
        named.free == contents.free,
{
    if unlinking::file_uses(named, inode_number, address) {
        let key = choose|key: BafsKey|
            key.object_id == inode_number && #[trigger] named.uses(key, address);
        assert(key == extent::extent_key(inode_number, key.offset));
        assert(contents.inodes.contains_key(key));
        let i = choose|i: int|
            0 <= i < entries.len() && (#[trigger] entries[i]).key == extent::extent_key(
                inode_number,
                key.offset,
            );
        assert(contents.uses(entries[i].key, address));
    }
    if unlinking::held(contents, entries, entries.len() as int, address) {
        let i = choose|i: int|
            0 <= i < entries.len() && contents.uses((#[trigger] entries[i]).key, address);
        let key = entries[i].key;
        assert(key == extent::extent_key(inode_number, key.offset));
        assert(named.uses(key, address));
    }
}

/// A new volume counts its free blocks, which are all of the data area, and one run.
pub proof fn law_new_volume_counts_free_blocks(
    disk: Seq<u8>,
    total_block_count: u64,
    options: BafsFormatOptions,
)
    requires
        formatting::formatted(disk, total_block_count, options),
    ensures
        mounting::mount_result(disk) is Ok,
        counts_free_blocks(mounting::mount_result(disk)->Ok_0),
        forall|address: u64| #[trigger]
            free_blocks(mounting::mount_result(disk)->Ok_0.state()).contains(address) == (
            beginnings::first_data_block(total_block_count) <= address < total_block_count),
        extent::runs_apart(mounting::mount_result(disk)->Ok_0.state().free),
{
    laws::law_formatted_device_mounts(disk, total_block_count, options);
    beginnings::law_areas_of_a_volume(total_block_count);
    let volume = mounting::mount_result(disk)->Ok_0;
    let contents = volume.state();
    let first = state::node_area_end(total_block_count) as u64;
    let run = BafsFreeExtent {
        block_address: first,
        block_count: (total_block_count - first) as u64,
    };
    extent::law_free_extent_round_trip(run);
    let key = extent::free_key(first);
    let range = durability::addresses(first as int, total_block_count as int);
    lemma_addresses_len(first as int, total_block_count as int);
    assert(contents.free.contains_key(key));
    assert(extent::run_at(contents.free, key) == run);
    assert forall|address: u64| #[trigger] free_blocks(contents).contains(address)
        == range.contains(address) by {
        if range.contains(address) {
            assert(contents.free.contains_key(key));
            assert(extent::is_free(contents.free, address));
        }
    }
    assert(free_blocks(contents) =~= range);
    reveal(extent::runs_apart);
}

/// A commit keeps the count.
pub proof fn law_commit_keeps_the_count(
    before: VolumeModel,
    after: VolumeModel,
    reliable: bool,
    entries: Seq<BlockWrite>,
)
    requires
        before.in_order(),
        mounting::anchored(before),
        before.next_transaction < u64::MAX,
        counts_free_blocks(before),
        mounting::commit_of(before, after, reliable, entries, Ok(())),
    ensures
        counts_free_blocks(after),
{
    mounting::law_commit_keeps_contents(before, after, reliable, entries);
}

} // verus!
