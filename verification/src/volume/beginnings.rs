//! What a new volume is like, which superblock a mount takes, and what a commit leaves
//! for the next mount.

use vstd::prelude::*;
use crate::block_io;
use crate::block_io::BlockWrite;
use crate::crash;
use crate::error::BafsError;
use crate::inode;
use crate::inode::BafsInode;
use crate::journal;
use crate::journal::CommitRecord;
use crate::layout;
use crate::state;
use crate::superblock;
use crate::superblock::BafsSuperblock;
use super::formatting;
use super::formatting::BafsFormatOptions;
use super::laws;
use super::model as volume_model;
use super::mounting;
use super::writing;
use super::{inode_in, VolumeModel};

verus! {

/// Size of the journal: one in a hundred blocks, from 256 to 16384.
pub open spec fn journal_blocks(total_block_count: u64) -> int {
    if total_block_count < 25_600 {
        256
    } else if total_block_count >= 1_638_400 {
        16_384
    } else {
        total_block_count as int / 100
    }
}

/// Where the data blocks begin: half way between the first three tree nodes, behind
/// the boot block, two superblocks and the journal, and the end of the volume.
pub open spec fn first_data_block(total_block_count: u64) -> int {
    (journal_blocks(total_block_count) + 6 + total_block_count) / 2 + 1
}

/// How the blocks of a volume are shared out.
pub proof fn law_areas_of_a_volume(total_block_count: u64)
    ensures
        superblock::journal_size(total_block_count) == journal_blocks(total_block_count),
        superblock::data_area_start(total_block_count) == 3 + journal_blocks(total_block_count),
        total_block_count >= journal_blocks(total_block_count) + 6 ==> state::node_area_end(
            total_block_count,
        ) == first_data_block(total_block_count),
        total_block_count < journal_blocks(total_block_count) + 6 ==> state::node_area_end(
            total_block_count,
        ) == journal_blocks(total_block_count) + 6,
{
}

/// A new volume has one inode, an empty directory with all permissions of the owner
/// and those to read and enter of all others; no names; its label, its identifier and
/// its size; and the same superblock twice.
#[verifier::spinoff_prover]
#[verifier::rlimit(40)]
pub proof fn law_new_volume_has_an_empty_root(
    disk: Seq<u8>,
    total_block_count: u64,
    options: BafsFormatOptions,
    number: u64,
    name: Seq<char>,
    word: int,
)
    requires
        formatting::formatted(disk, total_block_count, options),
        0 <= word < 4,
    ensures
        mounting::mount_result(disk) is Ok,
        ({
            let volume = mounting::mount_result(disk)->Ok_0;
            let found = volume.superblock;
            &&& volume.in_order()
            &&& volume.next_transaction == 2
            &&& volume.next_free <= 3 + journal_blocks(total_block_count) + 9
            &&& found.root_inode_number == 1
            &&& found.allocated_inode_count == 1
            &&& found.total_block_count == total_block_count
            &&& found.free_block_count == total_block_count - first_data_block(total_block_count)
            &&& found.journal_start_block == 3
            &&& found.journal_size_in_blocks == journal_blocks(total_block_count)
            &&& found.volume_uuid@[0] == options.volume_uuid_lower
            &&& found.volume_uuid@[1] == 0
            &&& found.volume_label@[word] == layout::number8(options.volume_label@, 8 * word)
            &&& superblock::superblock_at(disk, 1) == Ok::<BafsSuperblock, BafsError>(found)
            &&& superblock::superblock_at(disk, 2) == Ok::<BafsSuperblock, BafsError>(found)
            &&& state::entry_of(volume.state(), number, name) is None
            &&& if number == 1 {
                &&& inode_in(volume, number) is Ok
                &&& inode_in(volume, number)->Ok_0.inode_number == 1
                &&& inode_in(volume, number)->Ok_0.posix_mode == 0o040755
                &&& inode_in(volume, number)->Ok_0.hard_link_count == 2
                &&& inode_in(volume, number)->Ok_0.file_size_in_bytes == 0
                &&& inode_in(volume, number)->Ok_0.allocated_block_count == 0
                &&& inode_in(volume, number)->Ok_0.generation == 1
            } else {
                inode_in(volume, number) == Err::<BafsInode, BafsError>(BafsError::NotFound)
            }
        }),
{
    laws::law_formatted_device_mounts(disk, total_block_count, options);
    let volume = mounting::mount_result(disk)->Ok_0;
    law_areas_of_a_volume(total_block_count);
    layout::lemma_field8(options.volume_label@, 8 * word);
    writing::lemma_inode_record(volume, 1);
    writing::lemma_inode_record(volume, number);
    assert(volume.state().inodes.contains_key(inode::inode_key(1)));
    assert(number != 1 ==> inode::inode_key(number) != inode::inode_key(1));
    let key = crate::dir::entry_key(number, name);
    assert(key != inode::inode_key(1));
}

/// Formatting needs room for the journal and 16 blocks more, and for nothing else.
pub proof fn law_room_for_a_new_volume(total_block_count: u64)
    ensures
        total_block_count < superblock::data_area_start(total_block_count) + 13
            <==> total_block_count < 272,
{
}

/// On a device that carries out every request, mounting depends on what the device
/// holds alone; on another one it may also fail, or take the backup superblock.
pub proof fn law_mount_depends_on_the_device(
    disk: Seq<u8>,
    reliable: bool,
    result: Result<VolumeModel, BafsError>,
)
    requires
        mounting::mount_outcome(disk, reliable, result),
    ensures
        reliable ==> result == mounting::mount_result(disk),
        result is Ok && superblock::superblock_at(disk, 1) == superblock::superblock_at(disk, 2)
            ==> result == mounting::mount_result(disk),
{
}

/// A mount takes the superblock at its place, or where that one is damaged, its
/// backup; where both are, it fails as the backup does. Where nothing is left to be
/// recovered, it changes nothing and goes on where that superblock says. It fails where
/// the journal is not on the device, and where no transaction could follow.
pub proof fn law_mount_takes_a_sound_superblock(disk: Seq<u8>)
    ensures
        superblock::superblock_at(disk, 1) is Err && superblock::superblock_at(disk, 2) is Err
            ==> mounting::mount_result(disk) == Err::<VolumeModel, BafsError>(
            superblock::superblock_at(disk, 2)->Err_0,
        ),
        superblock::superblock_at(disk, 1) is Ok || superblock::superblock_at(disk, 2) is Ok ==> {
            let found = if superblock::superblock_at(disk, 1) is Ok {
                superblock::superblock_at(disk, 1)->Ok_0
            } else {
                superblock::superblock_at(disk, 2)->Ok_0
            };
            (found.journal_start_block + found.journal_size_in_blocks) * 4096 <= disk.len()
                && journal::pending_record(disk, found) is None
                && found.last_committed_transaction_id < u64::MAX ==> {
                &&& mounting::mount_result(disk) is Ok
                &&& {
                    let volume = mounting::mount_result(disk)->Ok_0;
                    &&& volume.disk == disk
                    &&& volume.superblock == found
                    &&& volume.cache.dom().len() == 0
                    &&& volume.superseded.len() == 0
                    &&& volume.next_free == found.next_cow_block_address
                    &&& volume.next_transaction == found.last_committed_transaction_id + 1
                }
            }
        },
        superblock::superblock_at(disk, 1) is Ok || superblock::superblock_at(disk, 2) is Ok ==> {
            let found = if superblock::superblock_at(disk, 1) is Ok {
                superblock::superblock_at(disk, 1)->Ok_0
            } else {
                superblock::superblock_at(disk, 2)->Ok_0
            };
            let end = (found.journal_start_block + found.journal_size_in_blocks) * 4096;
            &&& end > disk.len() ==> mounting::mount_result(disk) == Err::<VolumeModel, BafsError>(
                BafsError::InputOutputError,
            )
            &&& end <= disk.len() && journal::pending_record(disk, found) is None
                && found.last_committed_transaction_id == u64::MAX ==> mounting::mount_result(disk)
                == Err::<VolumeModel, BafsError>(BafsError::CorruptedStructure)
        },
{
    assert(Map::<u64, Vec<u8>>::empty().dom() =~= Set::<u64>::empty());
}

/// A mount that finds a complete record of a newer transaction carries it out: every
/// block of the record is in its place, no other block changes but the superblocks, and
/// the volume goes on behind that transaction, with the superblock of the record where
/// it ends with one.
#[verifier::spinoff_prover]
#[verifier::rlimit(40)]
pub proof fn law_mount_carries_out_a_record(
    disk: Seq<u8>,
    found: BafsSuperblock,
    record: CommitRecord,
    index: int,
    address: u64,
)
    requires
        superblock::superblock_at(disk, 1) == Ok::<BafsSuperblock, BafsError>(found)
            || superblock::superblock_at(disk, 1) is Err && superblock::superblock_at(disk, 2)
            == Ok::<BafsSuperblock, BafsError>(found),
        (found.journal_start_block + found.journal_size_in_blocks) * 4096 <= disk.len(),
        disk.len() >= 3 * 4096,
        journal::pending_record(disk, found) == Some(record),
        record.transaction_id < u64::MAX,
        forall|i: int|
            0 <= i < record.entries.len() ==> block_io::block_on_disk(
                disk,
                (#[trigger] record.entries[i]).address,
            ) && record.entries[i].data.len() == 4096,
        forall|i: int, j: int|
            0 <= i < j < record.entries.len() ==> (#[trigger] record.entries[i]).address != (
            #[trigger] record.entries[j]).address,
        0 <= index < record.entries.len(),
        record.entries[index].address >= 3,
        address >= 3,
        block_io::block_on_disk(disk, address),
        forall|i: int|
            0 <= i < record.entries.len() ==> (#[trigger] record.entries[i]).address != address,
    ensures
        mounting::mount_result(disk) is Ok,
        ({
            let volume = mounting::mount_result(disk)->Ok_0;
            &&& volume.disk.len() == disk.len()
            &&& block_io::disk_block(volume.disk, record.entries[index].address)
                == record.entries[index].data
            &&& block_io::disk_block(volume.disk, address) == block_io::disk_block(disk, address)
            &&& volume.superblock.last_committed_transaction_id == record.transaction_id
            &&& volume.next_transaction == record.transaction_id + 1
            &&& volume.next_free == volume.superblock.next_cow_block_address
            &&& superblock::superblock_at(volume.disk, 1) == Ok::<BafsSuperblock, BafsError>(
                volume.superblock,
            )
            &&& superblock::superblock_at(volume.disk, 2) == Ok::<BafsSuperblock, BafsError>(
                volume.superblock,
            )
            &&& journal::recorded_superblock(record) is None ==> volume.superblock == (
            BafsSuperblock {
                last_committed_transaction_id: record.transaction_id,
                superblock_checksum: volume.superblock.superblock_checksum,
                ..found
            })
            &&& journal::recorded_superblock(record) matches Some(image) ==> volume.superblock == (
            BafsSuperblock {
                last_committed_transaction_id: record.transaction_id,
                superblock_checksum: volume.superblock.superblock_checksum,
                ..image
            })
        }),
{
    let blocks = journal::recorded_blocks(record);
    let base = match journal::recorded_superblock(record) {
        Some(image) => image,
        None => found,
    };
    let marked = BafsSuperblock {
        last_committed_transaction_id: record.transaction_id,
        ..base
    };
    let last = superblock::superblock_writes(superblock::sealed(marked));
    let writes = journal::recovery_writes(found, record);
    assert(writes =~= blocks + last);
    superblock::lemma_superblock_len(superblock::sealed(marked));
    assert forall|i: int| 0 <= i < blocks.len() implies #[trigger] blocks[i] == record.entries[i] by {}
    assert(block_io::writes_on_disk(disk, blocks));
    assert(block_io::writes_on_disk(disk, writes)) by {
        assert forall|i: int| 0 <= i < writes.len() implies block_io::block_on_disk(
            disk,
            (#[trigger] writes[i]).address,
        ) && writes[i].data.len() == 4096 by {
            if i < blocks.len() {
                assert(writes[i] == blocks[i]);
            } else {
                assert(writes[i] == last[i - blocks.len()]);
            }
        }
    }
    let after = block_io::apply_writes(disk, writes);
    block_io::lemma_apply_writes_len(disk, writes);
    block_io::lemma_apply_writes_joins(disk, blocks, last);
    block_io::lemma_apply_writes_len(disk, blocks);
    superblock::law_stored_superblock_is_found(block_io::apply_writes(disk, blocks), marked);
    assert(index < blocks.len());
    assert forall|i: int| index < i < writes.len() implies (#[trigger] writes[i]).address
        != writes[index].address by {
        if i < blocks.len() {
            assert(writes[i] == blocks[i]);
        } else {
            assert(writes[i] == last[i - blocks.len()]);
        }
        assert(writes[index] == blocks[index]);
    }
    block_io::lemma_single_write(writes, index);
    block_io::lemma_block_after(disk, writes, writes[index].address);
    assert forall|i: int| 0 <= i < writes.len() implies (#[trigger] writes[i]).address
        != address by {
        if i < blocks.len() {
            assert(writes[i] == blocks[i]);
        } else {
            assert(writes[i] == last[i - blocks.len()]);
        }
    }
    block_io::lemma_no_write(writes, address);
    block_io::lemma_block_after(disk, writes, address);
    assert(mounting::mount_result(disk) is Ok);
}

/// Damage to a superblock, of which there are two alike, is no loss: the next mount
/// finds what it would have found without.
pub proof fn law_backup_saves_the_volume(disk: Seq<u8>, damaged: Seq<u8>)
    requires
        mounting::mount_result(disk) is Ok,
        mounting::mount_result(disk)->Ok_0.in_order(),
        superblock::superblock_at(disk, 1) is Ok,
        superblock::superblock_at(disk, 2) == superblock::superblock_at(disk, 1),
        journal::pending_record(disk, superblock::superblock_at(disk, 1)->Ok_0) is None,
        damaged.len() == disk.len(),
        forall|address: u64|
            address != 1 && block_io::block_on_disk(disk, address)
                ==> #[trigger] block_io::disk_block(damaged, address) == block_io::disk_block(
                disk,
                address,
            ),
        superblock::superblock_at(damaged, 1) is Err,
    ensures
        mounting::mount_result(damaged) is Ok,
        mounting::mount_result(damaged)->Ok_0.in_order(),
        mounting::mount_result(damaged)->Ok_0.state() == mounting::mount_result(
            disk,
        )->Ok_0.state(),
        mounting::mount_result(damaged)->Ok_0.superblock == mounting::mount_result(
            disk,
        )->Ok_0.superblock,
{
    let volume = mounting::mount_result(disk)->Ok_0;
    let found = volume.superblock;
    crash::lemma_same_superblock(disk, damaged, 2);
    volume_model::lemma_area_bounds(found.total_block_count);
    assert forall|address: u64|
        found.journal_start_block <= address < found.journal_start_block
            + found.journal_size_in_blocks implies #[trigger] block_io::disk_block(disk, address)
        == block_io::disk_block(damaged, address) by {
        assert(block_io::block_on_disk(disk, address));
        assert(address != 1);
        assert(block_io::disk_block(damaged, address) == block_io::disk_block(disk, address));
    }
    crash::lemma_same_journal(disk, damaged, found);
    let saved = volume_model::mounted_model(damaged, found);
    assert(mounting::mount_result(damaged) == Ok::<VolumeModel, BafsError>(saved));
    assert forall|address: u64|
        volume.node_area_start() <= address
            < volume.superblock.total_block_count implies #[trigger] block_io::disk_block(
        saved.disk,
        address,
    ) == volume.blocks()[address] by {
        assert(block_io::block_on_disk(disk, address));
        assert(address != 1);
    }
    volume_model::lemma_blocks_in_place(volume, saved);
}

/// What a commit leaves: its transaction and the next free tree block are recorded, in
/// both superblocks and in no other field of them, and the next transaction has the
/// next number.
pub proof fn law_commit_is_recorded(
    before: VolumeModel,
    after: VolumeModel,
    reliable: bool,
    entries: Seq<BlockWrite>,
)
    requires
        before.in_order(),
        mounting::anchored(before),
        before.next_transaction < u64::MAX,
        mounting::commit_of(before, after, reliable, entries, Ok(())),
    ensures
        after.next_transaction == before.next_transaction + 1,
        after.next_free == before.next_free,
        after.cache.dom().len() == 0,
        after.superseded.len() == 0,
        after.superblock.last_committed_transaction_id == before.next_transaction,
        after.superblock.next_cow_block_address == before.next_free,
        after.superblock == (BafsSuperblock {
            last_committed_transaction_id: before.next_transaction,
            next_cow_block_address: before.next_free,
            superblock_checksum: after.superblock.superblock_checksum,
            ..before.superblock
        }),
        superblock::superblock_at(after.disk, 1) == Ok::<BafsSuperblock, BafsError>(
            after.superblock,
        ),
        superblock::superblock_at(after.disk, 2) == Ok::<BafsSuperblock, BafsError>(
            after.superblock,
        ),
{
    assert(Map::<u64, Vec<u8>>::empty().dom() =~= Set::<u64>::empty());
    let current = mounting::superblock_to_commit(before);
    let marked = BafsSuperblock {
        last_committed_transaction_id: before.next_transaction,
        ..current
    };
    let last = superblock::superblock_writes(superblock::sealed(marked));
    let writes = journal::commit_writes(current, before.next_transaction, entries);
    volume_model::lemma_area_bounds(before.superblock.total_block_count);
    let first = writes.take(writes.len() - 2);
    assert(writes =~= first + last);
    assert(block_io::writes_on_disk(before.disk, first)) by {
        assert forall|i: int| 0 <= i < first.len() implies block_io::block_on_disk(
            before.disk,
            (#[trigger] first[i]).address,
        ) && first[i].data.len() == 4096 by {
            assert(first[i] == writes[i]);
        }
    }
    block_io::lemma_apply_writes_joins(before.disk, first, last);
    block_io::lemma_apply_writes_len(before.disk, first);
    superblock::law_stored_superblock_is_found(
        block_io::apply_writes(before.disk, first),
        marked,
    );
}

/// A commit on a device that carries out every request succeeds where the journal has
/// room for the blocks that were written and the superblock, each with its address,
/// and 28 bytes; else it is refused, and nothing changes.
pub proof fn law_commit_needs_room_only(
    before: VolumeModel,
    after: VolumeModel,
    entries: Seq<BlockWrite>,
    result: Result<(), BafsError>,
)
    requires
        before.in_order(),
        mounting::commit_of(before, after, true, entries, result),
    ensures
        ({
            let count = before.cache.dom().len();
            if count == 0 || (count + 1) * 4104 + 28 <= journal_blocks(
                before.superblock.total_block_count,
            ) * 4096 {
                result is Ok
            } else {
                &&& result == Err::<(), BafsError>(BafsError::OutOfSpace)
                &&& after.disk == before.disk
                &&& after.cache == before.cache
                &&& after.state() == before.state()
            }
        }),
{
    mounting::lemma_entry_count(before.cache, entries);
    law_areas_of_a_volume(before.superblock.total_block_count);
    let count = before.cache.dom().len();
    if count == 0 || (count + 1) * 4104 + 28 <= journal_blocks(
        before.superblock.total_block_count,
    ) * 4096 {
        mounting::lemma_commit_succeeds(before, after, entries, result);
    }
}

} // verus!
