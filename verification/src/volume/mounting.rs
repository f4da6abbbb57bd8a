//! Mounting a volume, committing what was written to it, and unmounting it.

use std::collections::BTreeMap;
use vstd::prelude::*;
use crate::block_device::BlockDevice;
use crate::block_io;
use crate::block_io::BlockWrite;
use crate::btree::store;
use crate::crash;
use crate::error::BafsError;
use crate::extent;
use crate::journal;
use crate::superblock;
use crate::superblock::{
    BafsSuperblock, BAFS_BACKUP_SUPERBLOCK_BLOCK_ADDRESS, BAFS_PRIMARY_SUPERBLOCK_BLOCK_ADDRESS,
};
use super::model as volume_model;
use super::{BafsVolume, VolumeModel};

verus! {

/// The error with which mounting fails that found the superblock `found`.
pub open spec fn recovery_error(disk: Seq<u8>, found: BafsSuperblock) -> Option<BafsError> {
    if !journal::journal_on_disk(disk, found) {
        Some(BafsError::InputOutputError)
    } else if journal::pending_record(disk, found) matches Some(record)
        && !block_io::writes_on_disk(disk, journal::recovery_writes(found, record)) {
        Some(BafsError::InputOutputError)
    } else if crash::superblock_after_recovery(disk, found).last_committed_transaction_id
        == u64::MAX {
        Some(BafsError::CorruptedStructure)
    } else {
        None
    }
}

/// What mounting gives that found the superblock `found`.
pub open spec fn mount_with(disk: Seq<u8>, found: BafsSuperblock) -> Result<
    VolumeModel,
    BafsError,
> {
    match recovery_error(disk, found) {
        Some(error) => Err(error),
        None => Ok(
            volume_model::mounted_model(
                crash::disk_after_recovery(disk, found),
                crash::superblock_after_recovery(disk, found),
            ),
        ),
    }
}

/// What mounting gives.
pub open spec fn mount_result(disk: Seq<u8>) -> Result<VolumeModel, BafsError> {
    match crash::mounted_superblock(disk) {
        Err(error) => Err(error),
        Ok(found) => mount_with(disk, found),
    }
}

/// What mounting gives on a device that carries out every request, or not: where
/// it does not, reading fails, or the backup superblock is taken though the primary
/// one is sound.
pub open spec fn mount_outcome(
    disk: Seq<u8>,
    reliable: bool,
    result: Result<VolumeModel, BafsError>,
) -> bool {
    ||| result == mount_result(disk)
    ||| !reliable && result == Err::<VolumeModel, BafsError>(BafsError::InputOutputError)
    ||| !reliable && match superblock::superblock_at(disk, 2) {
        Err(error) => result == Err::<VolumeModel, BafsError>(error),
        Ok(found) => result == mount_with(disk, found),
    }
}

/// Mount the volume on `device`: read its superblock, or the backup where the
/// primary one is damaged, and carry out a commit that was cut off.
pub fn bafs_mount<D: BlockDevice>(device: D) -> (result: Result<BafsVolume<D>, BafsError>)
    ensures
        match result {
            Ok(volume) => {
                &&& volume.device.reliable() == device.reliable()
                &&& mount_outcome(device.contents(), device.reliable(), Ok(volume@))
            },
            Err(error) => mount_outcome(device.contents(), device.reliable(), Err(error)),
        },
{
    broadcast use vstd::std_specs::btree::group_btree_axioms;

    let mut device = device;
    let mut superblock = match superblock::read_superblock_from_device(
        &device,
        BAFS_PRIMARY_SUPERBLOCK_BLOCK_ADDRESS,
    ) {
        Ok(found) => found,
        Err(_) => match superblock::read_superblock_from_device(
            &device,
            BAFS_BACKUP_SUPERBLOCK_BLOCK_ADDRESS,
        ) {
            Ok(found) => found,
            Err(error) => {
                return Err(error);
            },
        },
    };
    match journal::recover_journal_on_mount(&mut device, &mut superblock) {
        Ok(_) => {},
        Err(error) => {
            return Err(error);
        },
    }
    if superblock.last_committed_transaction_id == u64::MAX {
        return Err(BafsError::CorruptedStructure);
    }
    let volume = BafsVolume {
        device,
        superblock,
        dirty_block_cache: BTreeMap::new(),
        next_transaction_id: superblock.last_committed_transaction_id + 1,
        next_free_block: superblock.next_cow_block_address,
        superseded_blocks: Vec::new(),
    };
    assert(volume@.cache =~= Map::<u64, Vec<u8>>::empty());
    Ok(volume)
}

/// The superblock that a commit of the volume writes, but for the transaction and
/// the checksum.
pub open spec fn superblock_to_commit(volume: VolumeModel) -> BafsSuperblock {
    BafsSuperblock { next_cow_block_address: volume.next_free, ..volume.superblock }
}

/// What a commit of the volume leads to, for some order of its blocks.
pub open spec fn commit_of(
    before: VolumeModel,
    after: VolumeModel,
    reliable: bool,
    entries: Seq<BlockWrite>,
    result: Result<(), BafsError>,
) -> bool {
    &&& journal::lists_cache(before.cache, entries)
    &&& journal::commit_outcome(
        before.disk,
        after.disk,
        reliable,
        superblock_to_commit(before),
        after.superblock,
        before.next_transaction,
        entries,
        result,
    )
    &&& after.next_free == before.next_free
    &&& match result {
        Ok(_) => {
            &&& after.cache == Map::<u64, Vec<u8>>::empty()
            &&& after.superseded == Seq::<u64>::empty()
            &&& after.next_transaction == before.next_transaction + 1
        },
        Err(_) => {
            &&& after.cache == before.cache
            &&& after.superseded == before.superseded
            &&& after.next_transaction == before.next_transaction
        },
    }
}

/// The device holds a superblock that is not newer than the volume, and nothing
/// to be recovered.
pub open spec fn anchored(volume: VolumeModel) -> bool {
    &&& superblock::superblock_at(volume.disk, 1) is Ok
    &&& {
        let stored = superblock::superblock_at(volume.disk, 1)->Ok_0;
        &&& journal::pending_record(volume.disk, stored) is None
        &&& stored.last_committed_transaction_id < volume.next_transaction
        &&& stored.journal_start_block == volume.superblock.journal_start_block
        &&& stored.journal_size_in_blocks == volume.superblock.journal_size_in_blocks
    }
}

/// The blocks that were written since the last commit fit into the journal.
pub open spec fn fits_journal(volume: VolumeModel) -> bool {
    !journal::commit_too_large(volume.superblock, volume.cache.dom().len())
}

/// Commit what was written to the volume since the last commit.
///
/// The list of superseded nodes begins anew with the next transaction. Their blocks
/// are not returned to the free ones and not used again: they stay in the area of
/// tree nodes, where new nodes always go behind all others.
pub fn flush_and_commit<D: BlockDevice>(volume: &mut BafsVolume<D>) -> (result: Result<
    (),
    BafsError,
>)
    requires
        store::cache_valid(old(volume).dirty_block_cache@),
    ensures
        final(volume).device.reliable() == old(volume).device.reliable(),
        if old(volume).next_transaction_id == u64::MAX {
            &&& result == Err::<(), BafsError>(BafsError::OutOfSpace)
            &&& final(volume)@ == old(volume)@
        } else {
            exists|entries: Seq<BlockWrite>| #[trigger]
                commit_of(
                    old(volume)@,
                    final(volume)@,
                    old(volume).device.reliable(),
                    entries,
                    result,
                )
        },
        old(volume)@.in_order() && old(volume).device.reliable() && fits_journal(old(volume)@)
            && old(volume).next_transaction_id < u64::MAX ==> result is Ok,
        old(volume)@.in_order() && anchored(old(volume)@) && result is Ok ==> {
            &&& final(volume)@.in_order()
            &&& anchored(final(volume)@)
            &&& final(volume)@.state() == old(volume)@.state()
            &&& mount_result(final(volume)@.disk) == Ok::<VolumeModel, BafsError>(final(volume)@)
                || final(volume).next_transaction_id == u64::MAX
            &&& forall|address: u64|
                address < final(volume).next_free_block ==> !#[trigger] extent::is_free(
                    final(volume)@.state().free,
                    address,
                )
        },
{
    broadcast use vstd::std_specs::btree::group_btree_axioms;

    if volume.next_transaction_id == u64::MAX {
        return Err(BafsError::OutOfSpace);
    }
    let ghost before = volume@;
    let transaction = journal::begin_transaction(volume.next_transaction_id);
    volume.superblock.next_cow_block_address = volume.next_free_block;
    let committed = journal::commit_transaction(
        &mut volume.device,
        &transaction,
        &volume.dirty_block_cache,
        &mut volume.superblock,
    );
    let ghost entries = choose|entries: Seq<BlockWrite>|
        #![trigger journal::lists_cache(before.cache, entries)]
        journal::lists_cache(before.cache, entries) && journal::commit_outcome(
            before.disk,
            volume@.disk,
            old(volume).device.reliable(),
            superblock_to_commit(before),
            volume@.superblock,
            before.next_transaction,
            entries,
            committed,
        );
    proof {
        if before.in_order() {
            lemma_entry_count(before.cache, entries);
            lemma_commit_writes_on_disk(before, entries);
        }
    }
    match committed {
        Err(error) => {
            assert(commit_of(
                before,
                volume@,
                old(volume).device.reliable(),
                entries,
                Err(error),
            ));
            Err(error)
        },
        Ok(_) => {
            volume.dirty_block_cache = BTreeMap::new();
            volume.superseded_blocks = Vec::new();
            volume.next_transaction_id = volume.next_transaction_id + 1;
            proof {
                assert(volume@.cache =~= Map::<u64, Vec<u8>>::empty());
                assert(commit_of(
                    before,
                    volume@,
                    old(volume).device.reliable(),
                    entries,
                    Ok(()),
                ));
                if before.in_order() && anchored(before) {
                    law_commit_keeps_contents(
                        before,
                        volume@,
                        old(volume).device.reliable(),
                        entries,
                    );
                    lemma_nodes_are_not_free(volume@);
                }
            }
            Ok(())
        },
    }
}

/// No block that holds a tree node, or held one, is free.
proof fn lemma_nodes_are_not_free(volume: VolumeModel)
    requires
        volume.in_order(),
    ensures
        forall|address: u64|
            address < volume.next_free ==> !#[trigger] extent::is_free(
                volume.state().free,
                address,
            ),
{
}

/// What a transaction superseded stays unused once it is committed: no such block is
/// free, new nodes go behind it, and no later work on the volume writes to it.
pub proof fn law_superseded_nodes_stay_unused(
    before: VolumeModel,
    after: VolumeModel,
    reliable: bool,
    entries: Seq<BlockWrite>,
    later: VolumeModel,
    first: int,
    count: nat,
    address: u64,
)
    requires
        before.in_order(),
        anchored(before),
        before.next_transaction < u64::MAX,
        commit_of(before, after, reliable, entries, Ok(())),
        address < before.next_free,
        volume_model::worked_on(after, later, first, count),
        count > 0 ==> after.node_area_end() <= first,
    ensures
        after.superseded == Seq::<u64>::empty(),
        !extent::is_free(after.state().free, address),
        address < later.next_free,
        !later.cache.contains_key(address),
{
    law_commit_keeps_contents(before, after, reliable, entries);
    lemma_nodes_are_not_free(after);
    assert(!(after.next_free <= address < later.next_free));
    assert(later.cache.contains_key(address) == after.cache.contains_key(address));
}

/// Commit what was written to the volume, and give the volume up. Returns the
/// device as well, which the next mount may take.
pub fn bafs_unmount<D: BlockDevice>(volume: BafsVolume<D>) -> (result: (
    Result<(), BafsError>,
    D,
))
    requires
        store::cache_valid(volume.dirty_block_cache@),
    ensures
        result.1.reliable() == volume.device.reliable(),
        volume.next_transaction_id == u64::MAX ==> {
            &&& result.0 == Err::<(), BafsError>(BafsError::OutOfSpace)
            &&& result.1.contents() == volume.device.contents()
        },
        volume.next_transaction_id < u64::MAX ==> exists|
            entries: Seq<BlockWrite>,
            after: VolumeModel,
        | #[trigger]
            commit_of(volume@, after, volume.device.reliable(), entries, result.0) && after.disk
                == result.1.contents(),
        volume@.in_order() && volume.device.reliable() && fits_journal(volume@)
            && volume.next_transaction_id < u64::MAX ==> result.0 is Ok,
        volume@.in_order() && anchored(volume@) && result.0 is Ok && volume.next_transaction_id
            < u64::MAX - 1 ==> {
            let mounted = mount_result(result.1.contents());
            &&& mounted is Ok
            &&& mounted->Ok_0.in_order()
            &&& anchored(mounted->Ok_0)
            &&& mounted->Ok_0.state() == volume@.state()
        },
{
    let mut volume = volume;
    let ghost before = volume@;
    let ghost reliable = volume.device.reliable();
    let result = flush_and_commit(&mut volume);
    proof {
        if before.next_transaction < u64::MAX {
            let entries = choose|entries: Seq<BlockWrite>| #[trigger]
                commit_of(before, volume@, reliable, entries, result);
            assert(commit_of(before, volume@, reliable, entries, result));
        }
    }
    (result, volume.device)
}

/// A commit whose blocks fit into the journal succeeds on a device that carries out
/// every request.
pub proof fn lemma_commit_succeeds(
    before: VolumeModel,
    after: VolumeModel,
    entries: Seq<BlockWrite>,
    result: Result<(), BafsError>,
)
    requires
        before.in_order(),
        fits_journal(before),
        commit_of(before, after, true, entries, result),
    ensures
        result is Ok,
{
    lemma_entry_count(before.cache, entries);
    lemma_commit_writes_on_disk(before, entries);
}

/// There is one entry for every cached block.
pub proof fn lemma_entry_count(cache: Map<u64, Vec<u8>>, entries: Seq<BlockWrite>)
    requires
        journal::lists_cache(cache, entries),
    ensures
        entries.len() == cache.dom().len(),
{
    let addresses = entries.map_values(|entry: BlockWrite| entry.address);
    assert(addresses.no_duplicates()) by {
        assert forall|i: int, j: int|
            0 <= i < addresses.len() && 0 <= j < addresses.len() && i
                != j implies addresses[i] != addresses[j] by {
            assert(addresses[i] == entries[i].address);
            assert(addresses[j] == entries[j].address);
            if i < j {
                assert(entries[i].address < entries[j].address);
            } else {
                assert(entries[j].address < entries[i].address);
            }
        }
    }
    addresses.unique_seq_to_set();
    assert(addresses.to_set() =~= cache.dom()) by {
        assert forall|address: u64| cache.dom().contains(address) implies addresses.to_set().contains(
            address,
        ) by {
            assert(cache.contains_key(address));
            let i = choose|i: int|
                0 <= i < entries.len() && (#[trigger] entries[i]).address == address;
            assert(addresses[i] == address);
        }
        assert forall|address: u64| addresses.to_set().contains(
            address,
        ) implies cache.dom().contains(address) by {
            let i = choose|i: int| 0 <= i < addresses.len() && addresses[i] == address;
            assert(addresses[i] == entries[i].address);
            assert(cache.contains_key(entries[i].address));
        }
    }
}

/// The cached blocks of a volume in order belong to its data area.
proof fn lemma_entries_in_data_area(volume: VolumeModel, stored: BafsSuperblock, entries: Seq<BlockWrite>)
    requires
        volume.in_order(),
        journal::lists_cache(volume.cache, entries),
        stored.journal_start_block == volume.superblock.journal_start_block,
        stored.journal_size_in_blocks == volume.superblock.journal_size_in_blocks,
    ensures
        forall|i: int|
            0 <= i < entries.len() ==> crash::in_data_area(
                volume.disk,
                stored,
                (#[trigger] entries[i]).address,
            ) && entries[i].data.len() == 4096,
        journal::journal_on_disk(volume.disk, stored),
{
    volume_model::lemma_area_bounds(volume.superblock.total_block_count);
    assert forall|i: int| 0 <= i < entries.len() implies crash::in_data_area(
        volume.disk,
        stored,
        (#[trigger] entries[i]).address,
    ) && entries[i].data.len() == 4096 by {
        assert(volume.cache.contains_key(entries[i].address));
    }
}

/// All writes of a commit lie on the device.
proof fn lemma_commit_writes_on_disk(volume: VolumeModel, entries: Seq<BlockWrite>)
    requires
        volume.in_order(),
        journal::lists_cache(volume.cache, entries),
    ensures
        !journal::commit_too_large(superblock_to_commit(volume), entries.len())
            ==> block_io::writes_on_disk(
            volume.disk,
            journal::commit_writes(
                superblock_to_commit(volume),
                volume.next_transaction,
                entries,
            ),
        ),
{
    let current = superblock_to_commit(volume);
    if !journal::commit_too_large(current, entries.len()) {
        let transaction_id = volume.next_transaction;
        let writes = journal::commit_writes(current, transaction_id, entries);
        let last = superblock::superblock_writes(
            journal::committed_superblock(current, transaction_id),
        );
        superblock::lemma_superblock_len(journal::committed_superblock(current, transaction_id));
        volume_model::lemma_area_bounds(volume.superblock.total_block_count);
        lemma_entries_in_data_area(volume, volume.superblock, entries);
        if entries.len() > 0 {
            let record = journal::commit_record(current, transaction_id, entries);
            let encoded = journal::record_bytes(record);
            let first = journal::journal_writes(current.journal_start_block, encoded);
            assert forall|i: int| 0 <= i < record.entries.len() implies (#[trigger] record.entries[i]).data.len()
                == 4096 by {
                if i < entries.len() {
                    assert(record.entries[i] == entries[i]);
                }
            }
            journal::lemma_record_len(record);
            assert forall|i: int| 0 <= i < writes.len() implies block_io::block_on_disk(
                volume.disk,
                (#[trigger] writes[i]).address,
            ) && writes[i].data.len() == 4096 by {
                if i < first.len() {
                    assert(writes[i] == first[i]);
                } else if i < first.len() + entries.len() {
                    assert(writes[i] == entries[i - first.len()]);
                    assert(crash::in_data_area(
                        volume.disk,
                        volume.superblock,
                        entries[i - first.len()].address,
                    ));
                } else {
                    assert(writes[i] == last[i - first.len() - entries.len()]);
                }
            }
        }
    }
}

/// The commit of a volume in order begins as it must to be atomic.
proof fn lemma_commit_begins(volume: VolumeModel, entries: Seq<BlockWrite>)
    requires
        volume.in_order(),
        anchored(volume),
        journal::lists_cache(volume.cache, entries),
        !journal::commit_too_large(superblock_to_commit(volume), entries.len()),
    ensures
        crash::commit_begins(
            volume.disk,
            superblock::superblock_at(volume.disk, 1)->Ok_0,
            superblock_to_commit(volume),
            volume.next_transaction,
            entries,
        ),
{
    let stored = superblock::superblock_at(volume.disk, 1)->Ok_0;
    lemma_entries_in_data_area(volume, stored, entries);
}

/// A volume as it is found after the blocks of a commit reached their places.
proof fn lemma_committed_model(
    volume: VolumeModel,
    stored: BafsSuperblock,
    entries: Seq<BlockWrite>,
    after: Seq<u8>,
    found: BafsSuperblock,
)
    requires
        volume.in_order(),
        anchored(volume),
        stored == superblock::superblock_at(volume.disk, 1)->Ok_0,
        journal::lists_cache(volume.cache, entries),
        volume.next_transaction < u64::MAX,
        crash::state_after(
            volume.disk,
            after,
            stored,
            superblock_to_commit(volume),
            volume.next_transaction,
            entries,
            found,
        ),
    ensures
        volume_model::mounted_model(after, found).in_order(),
        volume_model::mounted_model(after, found).state() == volume.state(),
{
    volume_model::lemma_area_bounds(volume.superblock.total_block_count);
    assert forall|address: u64|
        volume.node_area_start() <= address
            < volume.superblock.total_block_count implies #[trigger] block_io::disk_block(
        after,
        address,
    ) == volume.blocks()[address] by {
        assert(crash::in_data_area(volume.disk, stored, address));
        crash::lemma_cache_written(volume.disk, volume.cache, entries, address);
    }
    volume_model::lemma_blocks_in_place(volume, volume_model::mounted_model(after, found));
}

/// A commit keeps what the volume holds, and the next mount finds the volume as
/// the commit left it.
pub proof fn law_commit_keeps_contents(
    before: VolumeModel,
    after: VolumeModel,
    reliable: bool,
    entries: Seq<BlockWrite>,
)
    requires
        before.in_order(),
        anchored(before),
        before.next_transaction < u64::MAX,
        commit_of(before, after, reliable, entries, Ok(())),
    ensures
        after.in_order(),
        anchored(after),
        after.state() == before.state(),
        after.next_transaction < u64::MAX ==> mount_result(after.disk) == Ok::<
            VolumeModel,
            BafsError,
        >(after),
{
    let stored = superblock::superblock_at(before.disk, 1)->Ok_0;
    let current = superblock_to_commit(before);
    let transaction_id = before.next_transaction;
    lemma_commit_begins(before, entries);
    crash::law_complete_commit_is_found(
        before.disk,
        after.disk,
        stored,
        current,
        transaction_id,
        entries,
    );
    lemma_committed_model(before, stored, entries, after.disk, after.superblock);
    let found = volume_model::mounted_model(after.disk, after.superblock);
    assert(found == after);
}

/// A commit is atomic for the volume, too: whatever write of it a crash cuts off,
/// the next mount finds a volume in order that holds either what the last commit
/// left or all that was written since.
pub proof fn law_interrupted_commit_keeps_a_volume(
    volume: VolumeModel,
    entries: Seq<BlockWrite>,
    after: Seq<u8>,
    complete: bool,
)
    requires
        volume.in_order(),
        anchored(volume),
        volume.next_transaction < u64::MAX,
        mount_result(volume.disk) is Ok,
        mount_result(volume.disk)->Ok_0.in_order(),
        journal::lists_cache(volume.cache, entries),
        !journal::commit_too_large(superblock_to_commit(volume), entries.len()),
        block_io::performed(
            volume.disk,
            journal::commit_writes(
                superblock_to_commit(volume),
                volume.next_transaction,
                entries,
            ),
            after,
            complete,
        ),
        crash::checksums_tell(
            after,
            superblock::superblock_at(volume.disk, 1)->Ok_0,
            superblock_to_commit(volume),
            volume.next_transaction,
            entries,
        ),
    ensures
        mount_result(after) is Ok,
        mount_result(after)->Ok_0.in_order(),
        mount_result(after)->Ok_0.state() == mount_result(volume.disk)->Ok_0.state()
            || mount_result(after)->Ok_0.state() == volume.state(),
{
    let stored = superblock::superblock_at(volume.disk, 1)->Ok_0;
    let current = superblock_to_commit(volume);
    let transaction_id = volume.next_transaction;
    lemma_commit_begins(volume, entries);
    crash::law_commit_is_atomic(
        volume.disk,
        after,
        stored,
        current,
        transaction_id,
        entries,
        complete,
    );
    crash::lemma_recovery_possible(
        volume.disk,
        after,
        stored,
        current,
        transaction_id,
        entries,
        complete,
    );
    let found = crash::mounted_superblock(after)->Ok_0;
    let recovered = crash::superblock_after_recovery(after, found);
    let contents = crash::disk_after_recovery(after, found);
    let mounted = volume_model::mounted_model(contents, recovered);
    let committed = mount_result(volume.disk)->Ok_0;
    assert(committed == volume_model::mounted_model(volume.disk, stored));
    if crash::state_before(volume.disk, contents, stored, recovered) {
        volume_model::lemma_area_bounds(stored.total_block_count);
        assert forall|address: u64|
            committed.node_area_start() <= address
                < committed.superblock.total_block_count implies #[trigger] block_io::disk_block(
            contents,
            address,
        ) == committed.blocks()[address] by {
            assert(crash::in_data_area(volume.disk, stored, address));
        }
        volume_model::lemma_blocks_in_place(committed, mounted);
    } else {
        lemma_committed_model(volume, stored, entries, contents, recovered);
    }
}

/// A mount that carries out a commit again may be cut off, too: whatever write of
/// it a crash cuts off, the next mount finds a volume in order that holds all that
/// was committed.
pub proof fn law_interrupted_recovery_keeps_a_volume(
    volume: VolumeModel,
    entries: Seq<BlockWrite>,
    found: Seq<u8>,
    after: Seq<u8>,
    complete: bool,
)
    requires
        volume.in_order(),
        anchored(volume),
        volume.next_transaction < u64::MAX,
        journal::lists_cache(volume.cache, entries),
        !journal::commit_too_large(superblock_to_commit(volume), entries.len()),
        crash::recovery_begins(
            volume.disk,
            found,
            superblock::superblock_at(volume.disk, 1)->Ok_0,
            superblock_to_commit(volume),
            volume.next_transaction,
            entries,
        ),
        block_io::performed(
            found,
            journal::recovery_writes(
                superblock::superblock_at(volume.disk, 1)->Ok_0,
                journal::commit_record(
                    superblock_to_commit(volume),
                    volume.next_transaction,
                    entries,
                ),
            ),
            after,
            complete,
        ),
        crash::checksums_tell(
            after,
            superblock::superblock_at(volume.disk, 1)->Ok_0,
            superblock_to_commit(volume),
            volume.next_transaction,
            entries,
        ),
    ensures
        mount_result(after) is Ok,
        mount_result(after)->Ok_0.in_order(),
        mount_result(after)->Ok_0.state() == volume.state(),
{
    let stored = superblock::superblock_at(volume.disk, 1)->Ok_0;
    let current = superblock_to_commit(volume);
    let transaction_id = volume.next_transaction;
    lemma_commit_begins(volume, entries);
    crash::law_recovery_can_be_repeated(
        volume.disk,
        found,
        after,
        stored,
        current,
        transaction_id,
        entries,
        complete,
    );
    let mounted = crash::mounted_superblock(after)->Ok_0;
    lemma_committed_model(
        volume,
        stored,
        entries,
        crash::disk_after_recovery(after, mounted),
        crash::superblock_after_recovery(after, mounted),
    );
}

} // verus!
