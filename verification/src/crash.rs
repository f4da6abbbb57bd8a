//! What a crash in the middle of a commit, or of a recovery, can leave behind.

use vstd::prelude::*;
use crate::block_io;
use crate::block_io::BlockWrite;
use crate::btree::store;
use crate::bytes;
use crate::checksum;
use crate::error::BafsError;
use crate::journal;
use crate::journal::CommitRecord;
use crate::superblock;
use crate::superblock::BafsSuperblock;

verus! {

broadcast use crate::bytes::lemma_le_bytes_len;

/// The superblock that a mount uses: the primary one, or else the backup.
pub open spec fn mounted_superblock(disk: Seq<u8>) -> Result<BafsSuperblock, BafsError> {
    match superblock::superblock_at(disk, 1) {
        Ok(found) => Ok(found),
        Err(_) => superblock::superblock_at(disk, 2),
    }
}

/// The superblock after recovery.
pub open spec fn superblock_after_recovery(
    disk: Seq<u8>,
    found: BafsSuperblock,
) -> BafsSuperblock {
    match journal::pending_record(disk, found) {
        None => found,
        Some(record) => journal::recovered_superblock(found, record),
    }
}

/// The device's contents after recovery.
pub open spec fn disk_after_recovery(disk: Seq<u8>, found: BafsSuperblock) -> Seq<u8> {
    match journal::pending_record(disk, found) {
        None => disk,
        Some(record) => block_io::apply_writes(disk, journal::recovery_writes(found, record)),
    }
}

/// Whether a block belongs to the data area: it is neither a superblock nor a
/// part of the journal.
pub open spec fn in_data_area(disk: Seq<u8>, superblock: BafsSuperblock, address: u64) -> bool {
    &&& block_io::block_on_disk(disk, address)
    &&& address >= 3
    &&& !(superblock.journal_start_block <= address < superblock.journal_start_block
        + superblock.journal_size_in_blocks)
}

proof fn lemma_entry_in_parts(entries: Seq<BlockWrite>, index: int)
    requires
        0 <= index < entries.len(),
        forall|i: int| 0 <= i < entries.len() ==> (#[trigger] entries[i]).data.len() == 4096,
    ensures
        journal::addresses_bytes(entries).len() == 8 * entries.len(),
        journal::data_bytes(entries).len() == 4096 * entries.len(),
        journal::addresses_bytes(entries).subrange(8 * index, 8 * index + 8) == bytes::le_bytes(
            entries[index].address as nat,
            8,
        ),
        journal::data_bytes(entries).subrange(4096 * index, 4096 * index + 4096)
            == entries[index].data,
    decreases entries.len(),
{
    journal::lemma_entries_len(entries);
    let shorter = entries.drop_last();
    assert forall|i: int| 0 <= i < shorter.len() implies (#[trigger] shorter[i]).data.len()
        == 4096 by {
        assert(shorter[i] == entries[i]);
    }
    journal::lemma_entries_len(shorter);
    let addresses = journal::addresses_bytes(entries);
    let data = journal::data_bytes(entries);
    if index == entries.len() - 1 {
        assert(addresses.subrange(8 * index, 8 * index + 8) =~= bytes::le_bytes(
            entries[index].address as nat,
            8,
        ));
        assert(data.subrange(4096 * index, 4096 * index + 4096) =~= entries[index].data);
    } else {
        lemma_entry_in_parts(shorter, index);
        assert(addresses.subrange(8 * index, 8 * index + 8) =~= journal::addresses_bytes(
            shorter,
        ).subrange(8 * index, 8 * index + 8));
        assert(data.subrange(4096 * index, 4096 * index + 4096) =~= journal::data_bytes(
            shorter,
        ).subrange(4096 * index, 4096 * index + 4096));
    }
}

/// A complete record is found in the journal as it was written.
pub proof fn law_record_round_trip(
    record: CommitRecord,
    journal_area: Seq<u8>,
    last_committed_transaction_id: u64,
)
    requires
        forall|i: int|
            0 <= i < record.entries.len() ==> (#[trigger] record.entries[i]).data.len() == 4096,
        record.entries.len() <= u32::MAX,
        record.transaction_id > last_committed_transaction_id,
        journal::record_bytes(record).len() <= journal_area.len(),
        journal_area.take(journal::record_bytes(record).len() as int) == journal::record_bytes(
            record,
        ),
    ensures
        journal::record_in_journal(journal_area, last_committed_transaction_id) == Some(record),
{
    reveal(journal::record_in_journal);
    bytes::lemma_byte_capacities();
    journal::lemma_record_len(record);
    journal::lemma_entries_len(record.entries);
    let entries = record.entries;
    let count = entries.len();
    let encoded = journal::record_bytes(record);
    let body = journal::record_body(record);
    let size = journal::record_body_size(count) as int;
    let place = 20 + 8 * count as int;
    assert(journal_area.take(8) =~= encoded.take(8));
    assert(encoded.take(8) =~= journal::JOURNAL_COMMIT_RECORD_MAGIC@);
    assert(journal_area.subrange(8, 16) =~= encoded.subrange(8, 16));
    assert(encoded.subrange(8, 16) =~= bytes::le_bytes(record.transaction_id as nat, 8));
    bytes::lemma_field(journal_area, 8, 8, record.transaction_id as nat);
    assert(journal_area.subrange(16, 20) =~= encoded.subrange(16, 20));
    assert(encoded.subrange(16, 20) =~= bytes::le_bytes(count, 4));
    bytes::lemma_field(journal_area, 16, 4, count);
    assert(journal_area.take(size) =~= encoded.take(size));
    assert(encoded.take(size) =~= body);
    assert(journal_area.subrange(size, size + 4) =~= encoded.subrange(size, size + 4));
    assert(encoded.subrange(size, size + 4) =~= bytes::le_bytes(
        checksum::crc32c(body) as nat,
        4,
    ));
    bytes::lemma_field(journal_area, size, 4, checksum::crc32c(body) as nat);
    assert(body.subrange(20, place) =~= journal::addresses_bytes(entries));
    assert(body.subrange(place, place + 4096 * count) =~= journal::data_bytes(entries));
    let found = Seq::new(count, |i: int| journal::entry_at(journal_area, count, i));
    assert forall|i: int| 0 <= i < count implies #[trigger] found[i] == entries[i] by {
        lemma_entry_in_parts(entries, i);
        let start = 20 + 8 * i;
        assert(journal_area.subrange(start, start + 8) =~= body.subrange(20, place).subrange(
            8 * i,
            8 * i + 8,
        ));
        bytes::lemma_field(journal_area, start, 8, entries[i].address as nat);
        assert(journal_area.subrange(place + 4096 * i, place + 4096 * i + 4096) =~= body.subrange(
            place,
            place + 4096 * count,
        ).subrange(4096 * i, 4096 * i + 4096));
    }
    assert(found =~= entries);
}

/// A journal without a newer record has none that is newer still.
proof fn lemma_older_record(journal_area: Seq<u8>, earlier: u64, later: u64)
    requires
        journal::record_in_journal(journal_area, earlier) is None,
        earlier <= later,
    ensures
        journal::record_in_journal(journal_area, later) is None,
{
    reveal(journal::record_in_journal);
}

/// A record that is not newer than the superblock is not carried out.
proof fn lemma_committed_record(
    record: CommitRecord,
    journal_area: Seq<u8>,
    earlier: u64,
)
    requires
        journal::record_in_journal(journal_area, earlier) == Some(record),
    ensures
        journal::record_in_journal(journal_area, record.transaction_id) is None,
{
    reveal(journal::record_in_journal);
}

/// The situation in which a commit is begun: the device holds a valid
/// superblock, nothing is pending in the journal, and the blocks to be
/// written, `entries`, belong to the data area.
pub open spec fn commit_begins(
    disk: Seq<u8>,
    stored: BafsSuperblock,
    current: BafsSuperblock,
    transaction_id: u64,
    entries: Seq<BlockWrite>,
) -> bool {
    &&& superblock::superblock_at(disk, 1) == Ok::<BafsSuperblock, BafsError>(stored)
    &&& disk.len() <= u64::MAX * 512
    &&& journal::journal_on_disk(disk, stored)
    &&& journal::pending_record(disk, stored) is None
    &&& stored.last_committed_transaction_id < transaction_id
    &&& stored.journal_start_block >= 3
    &&& current.journal_start_block == stored.journal_start_block
    &&& current.journal_size_in_blocks == stored.journal_size_in_blocks
    &&& current.magic_number@ == superblock::BAFS_MAGIC_NUMBER@
    &&& current.version == 1
    &&& !journal::commit_too_large(current, entries.len())
    &&& forall|i: int|
        0 <= i < entries.len() ==> in_data_area(disk, stored, (#[trigger] entries[i]).address)
            && entries[i].data.len() == 4096
    &&& forall|i: int, j: int|
        0 <= i < j < entries.len() ==> (#[trigger] entries[i]).address < (#[trigger] entries[j]).address
}

/// No damaged superblock and no damaged record has a checksum that matches by
/// coincidence: what is accepted is what was there before, or what the commit
/// wrote.
pub open spec fn checksums_tell(
    after: Seq<u8>,
    stored: BafsSuperblock,
    current: BafsSuperblock,
    transaction_id: u64,
    entries: Seq<BlockWrite>,
) -> bool {
    &&& superblock::superblock_at(after, 1) matches Ok(found) ==> found == stored || found
        == journal::committed_superblock(current, transaction_id)
    &&& journal::pending_record(after, stored) matches Some(record) ==> entries.len() > 0 && record
        == journal::commit_record(current, transaction_id, entries)
}

/// The volume is as it was before the commit.
pub open spec fn state_before(
    disk: Seq<u8>,
    after: Seq<u8>,
    stored: BafsSuperblock,
    found: BafsSuperblock,
) -> bool {
    &&& found == stored
    &&& after.len() == disk.len()
    &&& forall|address: u64| #[trigger]
        in_data_area(disk, stored, address) ==> block_io::disk_block(after, address)
            == block_io::disk_block(disk, address)
}

/// The volume is as the commit was to leave it.
pub open spec fn state_after(
    disk: Seq<u8>,
    after: Seq<u8>,
    stored: BafsSuperblock,
    current: BafsSuperblock,
    transaction_id: u64,
    entries: Seq<BlockWrite>,
    found: BafsSuperblock,
) -> bool {
    &&& found == journal::committed_superblock(current, transaction_id)
    &&& after.len() == disk.len()
    &&& forall|address: u64| #[trigger]
        in_data_area(disk, stored, address) ==> block_io::disk_block(after, address)
            == block_io::block_after(disk, entries, address)
}

/// A commit was cut off behind its record: the record is complete, the superblock
/// is still the old one, and no blocks of the data area have changed but those
/// that the commit writes.
pub open spec fn recovery_begins(
    disk: Seq<u8>,
    after: Seq<u8>,
    stored: BafsSuperblock,
    current: BafsSuperblock,
    transaction_id: u64,
    entries: Seq<BlockWrite>,
) -> bool {
    &&& after.len() == disk.len()
    &&& superblock::superblock_at(after, 1) == Ok::<BafsSuperblock, BafsError>(stored)
    &&& journal::pending_record(after, stored) == Some(
        journal::commit_record(current, transaction_id, entries),
    )
    &&& forall|address: u64| #[trigger]
        in_data_area(disk, stored, address) && block_io::last_write(entries, address) is None
            ==> block_io::disk_block(after, address) == block_io::disk_block(disk, address)
}

/// Whether a mount that found the superblock `found` can carry out what the
/// journal holds.
pub open spec fn recovery_possible(disk: Seq<u8>, found: BafsSuperblock) -> bool {
    &&& journal::journal_on_disk(disk, found)
    &&& journal::pending_record(disk, found) matches Some(record) ==> block_io::writes_on_disk(
        disk,
        journal::recovery_writes(found, record),
    )
}

pub proof fn lemma_same_superblock(left: Seq<u8>, right: Seq<u8>, address: u64)
    requires
        left.len() == right.len(),
        block_io::block_on_disk(left, address) ==> block_io::disk_block(left, address)
            == block_io::disk_block(right, address),
    ensures
        superblock::superblock_at(left, address) == superblock::superblock_at(right, address),
{
}

proof fn lemma_found_superblock(disk: Seq<u8>, address: u64, written: BafsSuperblock)
    requires
        block_io::block_on_disk(disk, address),
        block_io::disk_block(disk, address) == superblock::superblock_block(written),
        superblock::superblock_error(written, address) is None,
    ensures
        superblock::superblock_at(disk, address) == Ok::<BafsSuperblock, BafsError>(written),
{
    superblock::lemma_superblock_len(written);
    superblock::law_superblock_round_trip(written);
}

proof fn lemma_committed_superblock_valid(current: BafsSuperblock, transaction_id: u64, address: u64)
    requires
        current.magic_number@ == superblock::BAFS_MAGIC_NUMBER@,
        current.version == 1,
    ensures
        superblock::superblock_error(
            journal::committed_superblock(current, transaction_id),
            address,
        ) is None,
        journal::committed_superblock(
            journal::committed_superblock(current, transaction_id),
            transaction_id,
        ) == journal::committed_superblock(current, transaction_id),
{
    let base = BafsSuperblock { last_committed_transaction_id: transaction_id, ..current };
    let written = superblock::sealed(base);
    assert(superblock::superblock_body(written) == superblock::superblock_body(base));
    assert(superblock::superblock_body(
        BafsSuperblock { last_committed_transaction_id: transaction_id, ..written },
    ) == superblock::superblock_body(base));
}

/// The journal of a device with the same journal blocks is the same.
pub proof fn lemma_same_journal(left: Seq<u8>, right: Seq<u8>, found: BafsSuperblock)
    requires
        left.len() == right.len(),
        left.len() <= u64::MAX * 512,
        journal::journal_on_disk(left, found),
        forall|address: u64|
            found.journal_start_block <= address < found.journal_start_block
                + found.journal_size_in_blocks ==> #[trigger] block_io::disk_block(left, address)
                == block_io::disk_block(right, address),
    ensures
        journal::journal_area(left, found) == journal::journal_area(right, found),
{
    let first = journal::journal_area(left, found);
    let second = journal::journal_area(right, found);
    let start = found.journal_start_block as int;
    assert forall|i: int| 0 <= i < first.len() implies first[i] == second[i] by {
        let address = (start + i / 4096) as u64;
        assert(address == start + i / 4096);
        assert(block_io::disk_block(left, address) == block_io::disk_block(right, address));
        assert(block_io::disk_block(left, address)[i % 4096] == left[start * 4096 + i]);
        assert(block_io::disk_block(right, address)[i % 4096] == right[start * 4096 + i]);
    }
    assert(first =~= second);
}

/// A journal whose blocks were written holds what was written.
proof fn lemma_written_journal(disk: Seq<u8>, found: BafsSuperblock, data: Seq<u8>)
    requires
        disk.len() <= u64::MAX * 512,
        journal::journal_on_disk(disk, found),
        data.len() <= found.journal_size_in_blocks * 4096,
        forall|i: int|
            #![trigger block_io::block_of(data, i)]
            0 <= i < block_io::blocks_for(data.len()) ==> block_io::disk_block(
                disk,
                (found.journal_start_block + i) as u64,
            ) == block_io::block_of(data, i),
    ensures
        data.len() <= journal::journal_area(disk, found).len(),
        journal::journal_area(disk, found).take(data.len() as int) == data,
{
    let area = journal::journal_area(disk, found);
    let start = found.journal_start_block as int;
    assert forall|i: int| 0 <= i < data.len() implies area[i] == data[i] by {
        let index = i / 4096;
        let address = (start + index) as u64;
        assert(address == start + index);
        assert(block_io::disk_block(disk, address) == block_io::block_of(data, index));
        assert(block_io::disk_block(disk, address)[i % 4096] == disk[start * 4096 + i]);
        assert(block_io::block_of(data, index)[i % 4096] == data[i]);
    }
    assert(area.take(data.len() as int) =~= data);
}

proof fn lemma_entry_is_last(entries: Seq<BlockWrite>, at: int)
    requires
        0 <= at < entries.len(),
        forall|i: int, j: int|
            0 <= i < j < entries.len() ==> (#[trigger] entries[i]).address < (#[trigger] entries[j]).address,
    ensures
        block_io::last_write(entries, entries[at].address) == Some(entries[at].data),
{
    block_io::lemma_single_write(entries, at);
}

/// Once the cached blocks are at their places, the device holds what was visible
/// before.
pub proof fn lemma_cache_written(
    disk: Seq<u8>,
    cache: Map<u64, Vec<u8>>,
    entries: Seq<BlockWrite>,
    address: u64,
)
    requires
        journal::lists_cache(cache, entries),
        block_io::block_on_disk(disk, address),
    ensures
        block_io::block_after(disk, entries, address) == store::visible_blocks(
            disk,
            cache,
        )[address],
{
    if cache.contains_key(address) {
        let at = choose|i: int|
            0 <= i < entries.len() && (#[trigger] entries[i]).address == address;
        lemma_entry_is_last(entries, at);
    } else {
        block_io::lemma_no_write(entries, address);
    }
}

/// Carrying out the record of a commit writes what the commit itself writes behind
/// the journal.
proof fn lemma_recovery_writes(
    stored: BafsSuperblock,
    current: BafsSuperblock,
    transaction_id: u64,
    entries: Seq<BlockWrite>,
)
    requires
        current.magic_number@ == superblock::BAFS_MAGIC_NUMBER@,
        current.version == 1,
    ensures
        ({
            let record = journal::commit_record(current, transaction_id, entries);
            let written = journal::committed_superblock(current, transaction_id);
            &&& journal::recovered_superblock(stored, record) == written
            &&& journal::recovery_writes(stored, record) == entries
                + superblock::superblock_writes(written)
        }),
{
    let record = journal::commit_record(current, transaction_id, entries);
    let written = journal::committed_superblock(current, transaction_id);
    superblock::lemma_superblock_len(written);
    superblock::law_superblock_round_trip(written);
    lemma_committed_superblock_valid(current, transaction_id, 1);
    assert(record.entries.last().data == superblock::superblock_block(written));
    assert(journal::recorded_superblock(record) == Some(written));
    assert(journal::recorded_blocks(record) =~= entries);
}

/// The writes of a recovery lie on the device.
proof fn lemma_recovery_on_disk(
    disk: Seq<u8>,
    after: Seq<u8>,
    stored: BafsSuperblock,
    current: BafsSuperblock,
    transaction_id: u64,
    entries: Seq<BlockWrite>,
)
    requires
        commit_begins(disk, stored, current, transaction_id, entries),
        after.len() == disk.len(),
    ensures
        block_io::writes_on_disk(
            after,
            journal::recovery_writes(
                stored,
                journal::commit_record(current, transaction_id, entries),
            ),
        ),
{
    let record = journal::commit_record(current, transaction_id, entries);
    let writes = journal::recovery_writes(stored, record);
    lemma_recovery_writes(stored, current, transaction_id, entries);
    superblock::lemma_superblock_len(journal::committed_superblock(current, transaction_id));
    assert forall|i: int| 0 <= i < writes.len() implies block_io::block_on_disk(
        after,
        (#[trigger] writes[i]).address,
    ) && writes[i].data.len() == 4096 by {
        if i < entries.len() {
            assert(writes[i] == entries[i]);
            assert(in_data_area(disk, stored, entries[i].address));
        }
    }
}

/// Carrying out the record brings the volume to the state after the commit,
/// whatever the blocks of the commit hold by then.
proof fn lemma_replay(
    disk: Seq<u8>,
    after: Seq<u8>,
    stored: BafsSuperblock,
    current: BafsSuperblock,
    transaction_id: u64,
    entries: Seq<BlockWrite>,
)
    requires
        commit_begins(disk, stored, current, transaction_id, entries),
        after.len() == disk.len(),
        journal::pending_record(after, stored) == Some(
            journal::commit_record(current, transaction_id, entries),
        ),
        forall|address: u64| #[trigger]
            in_data_area(disk, stored, address) && block_io::last_write(entries, address) is None
                ==> block_io::disk_block(after, address) == block_io::disk_block(disk, address),
    ensures
        state_after(
            disk,
            disk_after_recovery(after, stored),
            stored,
            current,
            transaction_id,
            entries,
            superblock_after_recovery(after, stored),
        ),
{
    let record = journal::commit_record(current, transaction_id, entries);
    let written = journal::committed_superblock(current, transaction_id);
    let last = superblock::superblock_writes(written);
    let writes = journal::recovery_writes(stored, record);
    lemma_recovery_writes(stored, current, transaction_id, entries);
    lemma_recovery_on_disk(disk, after, stored, current, transaction_id, entries);
    block_io::lemma_apply_writes_len(after, writes);
    assert forall|address: u64| #[trigger]
        in_data_area(disk, stored, address) implies block_io::disk_block(
        disk_after_recovery(after, stored),
        address,
    ) == block_io::block_after(disk, entries, address) by {
        block_io::lemma_block_after(after, writes, address);
        block_io::lemma_last_write_joins(entries, last, address);
        block_io::lemma_no_write(last, address);
    }
}

/// The addresses of the journal's blocks.
proof fn lemma_journal_writes(
    disk: Seq<u8>,
    stored: BafsSuperblock,
    current: BafsSuperblock,
    transaction_id: u64,
    entries: Seq<BlockWrite>,
)
    requires
        commit_begins(disk, stored, current, transaction_id, entries),
        entries.len() > 0,
    ensures
        ({
            let encoded = journal::record_bytes(
                journal::commit_record(current, transaction_id, entries),
            );
            let writes = journal::journal_writes(current.journal_start_block, encoded);
            &&& encoded.len() <= stored.journal_size_in_blocks * 4096
            &&& writes.len() <= stored.journal_size_in_blocks
            &&& forall|i: int|
                0 <= i < writes.len() ==> (#[trigger] writes[i]).address
                    == stored.journal_start_block + i
        }),
{
    let record = journal::commit_record(current, transaction_id, entries);
    superblock::lemma_superblock_len(journal::committed_superblock(current, transaction_id));
    assert forall|i: int| 0 <= i < record.entries.len() implies (#[trigger] record.entries[i]).data.len()
        == 4096 by {
        if i < entries.len() {
            assert(record.entries[i] == entries[i]);
        }
    }
    journal::lemma_record_len(record);
}

/// Once the journal is written, its record is found, whatever else is written
/// to the data area afterwards.
proof fn lemma_record_is_pending(
    disk: Seq<u8>,
    after: Seq<u8>,
    stored: BafsSuperblock,
    current: BafsSuperblock,
    transaction_id: u64,
    entries: Seq<BlockWrite>,
    behind: Seq<BlockWrite>,
)
    requires
        commit_begins(disk, stored, current, transaction_id, entries),
        entries.len() > 0,
        after.len() == disk.len(),
        forall|i: int|
            0 <= i < behind.len() ==> !(stored.journal_start_block <= (#[trigger] behind[i]).address
                < stored.journal_start_block + stored.journal_size_in_blocks),
        forall|address: u64|
            stored.journal_start_block <= address < stored.journal_start_block
                + stored.journal_size_in_blocks ==> #[trigger] block_io::disk_block(after, address)
                == block_io::block_after(
                disk,
                journal::journal_writes(
                    current.journal_start_block,
                    journal::record_bytes(
                        journal::commit_record(current, transaction_id, entries),
                    ),
                ) + behind,
                address,
            ),
    ensures
        journal::pending_record(after, stored) == Some(
            journal::commit_record(current, transaction_id, entries),
        ),
        journal::pending_record(
            after,
            journal::committed_superblock(current, transaction_id),
        ) is None,
{
    let record = journal::commit_record(current, transaction_id, entries);
    let encoded = journal::record_bytes(record);
    let writes = journal::journal_writes(current.journal_start_block, encoded);
    lemma_journal_writes(disk, stored, current, transaction_id, entries);
    assert forall|i: int|
        #![trigger block_io::block_of(encoded, i)]
        0 <= i < block_io::blocks_for(encoded.len()) implies block_io::disk_block(
        after,
        (stored.journal_start_block + i) as u64,
    ) == block_io::block_of(encoded, i) by {
        let address = writes[i].address;
        assert(address == (stored.journal_start_block + i) as u64);
        assert(block_io::disk_block(after, address) == block_io::block_after(
            disk,
            writes + behind,
            address,
        ));
        block_io::lemma_last_write_joins(writes, behind, address);
        block_io::lemma_no_write(behind, address);
        block_io::lemma_single_write(writes, i);
    }
    lemma_written_journal(after, stored, encoded);
    superblock::lemma_superblock_len(journal::committed_superblock(current, transaction_id));
    assert forall|i: int| 0 <= i < record.entries.len() implies (#[trigger] record.entries[i]).data.len()
        == 4096 by {
        if i < entries.len() {
            assert(record.entries[i] == entries[i]);
        }
    }
    law_record_round_trip(
        record,
        journal::journal_area(after, stored),
        stored.last_committed_transaction_id,
    );
    lemma_committed_record(
        record,
        journal::journal_area(after, stored),
        stored.last_committed_transaction_id,
    );
}

/// A mount finds the volume in one of the two states.
pub open spec fn all_or_nothing(
    disk: Seq<u8>,
    after: Seq<u8>,
    stored: BafsSuperblock,
    current: BafsSuperblock,
    transaction_id: u64,
    entries: Seq<BlockWrite>,
) -> bool {
    let found = mounted_superblock(after);
    &&& found is Ok
    &&& found->Ok_0 == stored || found->Ok_0 == journal::committed_superblock(
        current,
        transaction_id,
    )
    &&& {
        let recovered = superblock_after_recovery(after, found->Ok_0);
        let contents = disk_after_recovery(after, found->Ok_0);
        ||| state_before(disk, contents, stored, recovered)
        ||| state_after(
            disk,
            contents,
            stored,
            current,
            transaction_id,
            entries,
            recovered,
        )
    }
    &&& found->Ok_0 == stored && journal::pending_record(after, stored) is Some ==> recovery_begins(
        disk,
        after,
        stored,
        current,
        transaction_id,
        entries,
    )
}

proof fn lemma_cut_off_in_journal(
    disk: Seq<u8>,
    after: Seq<u8>,
    stored: BafsSuperblock,
    current: BafsSuperblock,
    transaction_id: u64,
    entries: Seq<BlockWrite>,
    at: int,
)
    requires
        commit_begins(disk, stored, current, transaction_id, entries),
        checksums_tell(after, stored, current, transaction_id, entries),
        entries.len() > 0,
        at < journal::journal_writes(
            current.journal_start_block,
            journal::record_bytes(journal::commit_record(current, transaction_id, entries)),
        ).len(),
        block_io::interrupted_at(
            disk,
            journal::commit_writes(current, transaction_id, entries),
            after,
            at,
        ),
    ensures
        all_or_nothing(disk, after, stored, current, transaction_id, entries),
{
    let encoded = journal::record_bytes(journal::commit_record(current, transaction_id, entries));
    let first = journal::journal_writes(current.journal_start_block, encoded);
    let writes = journal::commit_writes(current, transaction_id, entries);
    lemma_journal_writes(disk, stored, current, transaction_id, entries);
    assert(writes[at] == first[at]);
    assert(writes.take(at) =~= first.take(at));
    assert forall|address: u64|
        block_io::block_on_disk(disk, address) && !(stored.journal_start_block <= address
            < stored.journal_start_block
            + stored.journal_size_in_blocks) implies #[trigger] block_io::disk_block(after, address)
        == block_io::disk_block(disk, address) by {
        block_io::lemma_block_after_interruption(disk, writes, after, at, address);
        assert forall|i: int| 0 <= i < first.take(at).len() implies (#[trigger] first.take(at)[i]).address
            != address by {
            assert(first.take(at)[i] == first[i]);
        }
        block_io::lemma_no_write(first.take(at), address);
    }
    block_io::lemma_apply_writes_len(disk, writes.take(at));
    lemma_same_superblock(after, disk, 1);
    if journal::pending_record(after, stored) is Some {
        lemma_replay(disk, after, stored, current, transaction_id, entries);
    } else {
        assert(state_before(disk, after, stored, stored));
    }
}

proof fn lemma_cut_off_behind_journal(
    disk: Seq<u8>,
    after: Seq<u8>,
    stored: BafsSuperblock,
    current: BafsSuperblock,
    transaction_id: u64,
    entries: Seq<BlockWrite>,
    at: int,
)
    requires
        commit_begins(disk, stored, current, transaction_id, entries),
        checksums_tell(after, stored, current, transaction_id, entries),
        entries.len() > 0,
        at >= journal::journal_writes(
            current.journal_start_block,
            journal::record_bytes(journal::commit_record(current, transaction_id, entries)),
        ).len(),
        block_io::interrupted_at(
            disk,
            journal::commit_writes(current, transaction_id, entries),
            after,
            at,
        ),
    ensures
        all_or_nothing(disk, after, stored, current, transaction_id, entries),
{
    let encoded = journal::record_bytes(journal::commit_record(current, transaction_id, entries));
    let first = journal::journal_writes(current.journal_start_block, encoded);
    let written = journal::committed_superblock(current, transaction_id);
    let last = superblock::superblock_writes(written);
    let writes = journal::commit_writes(current, transaction_id, entries);
    let rest = entries + last;
    let behind = rest.take(at - first.len());
    lemma_journal_writes(disk, stored, current, transaction_id, entries);
    assert(writes =~= first + rest);
    assert(writes.take(at) =~= first + behind);
    assert(writes[at] == rest[at - first.len()]);
    block_io::lemma_apply_writes_len(disk, writes.take(at));
    assert forall|i: int| 0 <= i < rest.len() implies !(stored.journal_start_block
        <= (#[trigger] rest[i]).address < stored.journal_start_block
        + stored.journal_size_in_blocks) by {
        if i < entries.len() {
            assert(rest[i] == entries[i]);
            assert(in_data_area(disk, stored, entries[i].address));
        }
    }
    assert forall|i: int| 0 <= i < behind.len() implies !(stored.journal_start_block
        <= (#[trigger] behind[i]).address < stored.journal_start_block
        + stored.journal_size_in_blocks) by {
        assert(behind[i] == rest[i]);
    }
    assert forall|address: u64|
        stored.journal_start_block <= address < stored.journal_start_block
            + stored.journal_size_in_blocks implies #[trigger] block_io::disk_block(after, address)
        == block_io::block_after(disk, first + behind, address) by {
        block_io::lemma_block_after_interruption(disk, writes, after, at, address);
    }
    lemma_record_is_pending(
        disk,
        after,
        stored,
        current,
        transaction_id,
        entries,
        behind,
    );
    assert forall|address: u64| #[trigger]
        in_data_area(disk, stored, address) && block_io::last_write(entries, address)
            is None implies block_io::disk_block(after, address) == block_io::disk_block(
        disk,
        address,
    ) by {
        assert forall|i: int| 0 <= i < entries.len() implies (#[trigger] entries[i]).address
            != address by {
            if entries[i].address == address {
                lemma_entry_is_last(entries, i);
            }
        }
        block_io::lemma_block_after_interruption(disk, writes, after, at, address);
        assert forall|i: int| 0 <= i < (first + behind).len() implies (#[trigger] (first
            + behind)[i]).address != address by {
            if i < first.len() {
                assert((first + behind)[i] == first[i]);
            } else {
                assert((first + behind)[i] == rest[i - first.len()]);
                if i - first.len() < entries.len() {
                    assert(rest[i - first.len()] == entries[i - first.len()]);
                }
            }
        }
        block_io::lemma_no_write(first + behind, address);
    }
    lemma_replay(disk, after, stored, current, transaction_id, entries);
    if at < first.len() + entries.len() + 1 {
        assert(block_io::disk_block(after, 1) == block_io::disk_block(disk, 1)) by {
            if at < first.len() + entries.len() {
                assert(rest[at - first.len()] == entries[at - first.len()]);
                assert(in_data_area(disk, stored, entries[at - first.len()].address));
            }
            block_io::lemma_block_after_interruption(disk, writes, after, at, 1);
            assert forall|i: int| 0 <= i < (first + behind).len() implies (#[trigger] (first
                + behind)[i]).address != 1 by {
                if i < first.len() {
                    assert((first + behind)[i] == first[i]);
                } else {
                    assert((first + behind)[i] == rest[i - first.len()]);
                    assert(rest[i - first.len()] == entries[i - first.len()]);
                    assert(in_data_area(disk, stored, entries[i - first.len()].address));
                }
            }
            block_io::lemma_no_write(first + behind, 1);
        }
        lemma_same_superblock(after, disk, 1);
    } else {
        let backup = last[0];
        assert(behind =~= entries.push(backup));
        assert forall|address: u64| #[trigger]
            in_data_area(disk, stored, address) implies block_io::disk_block(after, address)
            == block_io::block_after(disk, entries, address) by {
            block_io::lemma_block_after_interruption(disk, writes, after, at, address);
            block_io::lemma_last_write_joins(first, behind, address);
            assert(block_io::last_write(behind, address) == block_io::last_write(
                entries,
                address,
            )) by {
                assert(behind.drop_last() =~= entries);
            }
            assert forall|i: int| 0 <= i < first.len() implies (#[trigger] first[i]).address
                != address by {}
            block_io::lemma_no_write(first, address);
        }
        lemma_committed_superblock_valid(current, transaction_id, 2);
        assert(block_io::disk_block(after, 2) == superblock::superblock_block(written)) by {
            block_io::lemma_block_after_interruption(disk, writes, after, at, 2);
            block_io::lemma_last_write_joins(first, behind, 2);
            assert(behind.last() == backup);
        }
        lemma_found_superblock(after, 2, written);
        if mounted_superblock(after) == Ok::<BafsSuperblock, BafsError>(written) {
            assert(state_after(
                disk,
                after,
                stored,
                current,
                transaction_id,
                entries,
                written,
            ));
        }
    }
}

proof fn lemma_commit_without_blocks(
    disk: Seq<u8>,
    after: Seq<u8>,
    stored: BafsSuperblock,
    current: BafsSuperblock,
    transaction_id: u64,
    complete: bool,
)
    requires
        commit_begins(disk, stored, current, transaction_id, Seq::empty()),
        checksums_tell(after, stored, current, transaction_id, Seq::empty()),
        block_io::performed(
            disk,
            journal::commit_writes(current, transaction_id, Seq::empty()),
            after,
            complete,
        ),
    ensures
        all_or_nothing(disk, after, stored, current, transaction_id, Seq::empty()),
{
    let written = journal::committed_superblock(current, transaction_id);
    let writes = superblock::superblock_writes(written);
    lemma_committed_superblock_valid(current, transaction_id, 1);
    lemma_committed_superblock_valid(current, transaction_id, 2);
    if complete {
        block_io::lemma_apply_writes_len(disk, writes);
        lemma_untouched_data(disk, after, stored, writes, -1);
        block_io::lemma_block_after(disk, writes, 1);
        block_io::lemma_single_write(writes, 1);
        lemma_found_superblock(after, 1, written);
    } else {
        let at = choose|at: int| #[trigger] block_io::interrupted_at(disk, writes, after, at);
        block_io::lemma_apply_writes_len(disk, writes.take(at));
        lemma_untouched_data(disk, after, stored, writes, at);
        if at == 0 {
            block_io::lemma_block_after_interruption(disk, writes, after, at, 1);
            block_io::lemma_no_write(writes.take(0), 1);
            lemma_same_superblock(after, disk, 1);
        } else {
            block_io::lemma_block_after_interruption(disk, writes, after, at, 2);
            assert(writes.take(1) =~= seq![writes[0]]);
            block_io::lemma_single_write(writes.take(1), 0);
            lemma_found_superblock(after, 2, written);
        }
    }
    assert forall|address: u64|
        stored.journal_start_block <= address < stored.journal_start_block
            + stored.journal_size_in_blocks implies #[trigger] block_io::disk_block(after, address)
        == block_io::disk_block(disk, address) by {}
    lemma_same_journal(after, disk, stored);
    lemma_older_record(
        journal::journal_area(after, stored),
        stored.last_committed_transaction_id,
        transaction_id,
    );
    let found = mounted_superblock(after)->Ok_0;
    if found == stored {
        assert(state_before(disk, after, stored, stored));
    } else {
        assert forall|address: u64| #[trigger]
            in_data_area(disk, stored, address) implies block_io::disk_block(after, address)
            == block_io::block_after(disk, Seq::empty(), address) by {}
        assert(state_after(
            disk,
            after,
            stored,
            current,
            transaction_id,
            Seq::empty(),
            written,
        ));
    }
}

/// Writes to the two superblocks leave all other blocks alone.
proof fn lemma_untouched_data(
    disk: Seq<u8>,
    after: Seq<u8>,
    stored: BafsSuperblock,
    writes: Seq<BlockWrite>,
    at: int,
)
    requires
        forall|i: int|
            0 <= i < writes.len() ==> (#[trigger] writes[i]).address == 1 || writes[i].address == 2,
        at >= 0 ==> block_io::interrupted_at(disk, writes, after, at),
        at < 0 ==> block_io::writes_on_disk(disk, writes) && after == block_io::apply_writes(
            disk,
            writes,
        ),
    ensures
        forall|address: u64|
            address >= 3 && block_io::block_on_disk(disk, address) ==> #[trigger] block_io::disk_block(
                after,
                address,
            ) == block_io::disk_block(disk, address),
{
    assert forall|address: u64|
        address >= 3 && block_io::block_on_disk(disk, address) implies #[trigger] block_io::disk_block(
        after,
        address,
    ) == block_io::disk_block(disk, address) by {
        if at >= 0 {
            assert(writes[at].address != address);
            block_io::lemma_block_after_interruption(disk, writes, after, at, address);
            assert forall|i: int| 0 <= i < writes.take(at).len() implies (#[trigger] writes.take(
                at,
            )[i]).address != address by {
                assert(writes.take(at)[i] == writes[i]);
            }
            block_io::lemma_no_write(writes.take(at), address);
        } else {
            block_io::lemma_block_after(disk, writes, address);
            block_io::lemma_no_write(writes, address);
        }
    }
}

proof fn lemma_complete_commit(
    disk: Seq<u8>,
    after: Seq<u8>,
    stored: BafsSuperblock,
    current: BafsSuperblock,
    transaction_id: u64,
    entries: Seq<BlockWrite>,
)
    requires
        commit_begins(disk, stored, current, transaction_id, entries),
        entries.len() > 0,
        block_io::performed(
            disk,
            journal::commit_writes(current, transaction_id, entries),
            after,
            true,
        ),
    ensures
        all_or_nothing(disk, after, stored, current, transaction_id, entries),
        superblock::superblock_at(after, 1) == Ok::<BafsSuperblock, BafsError>(
            journal::committed_superblock(current, transaction_id),
        ),
        journal::pending_record(
            after,
            journal::committed_superblock(current, transaction_id),
        ) is None,
        state_after(
            disk,
            after,
            stored,
            current,
            transaction_id,
            entries,
            journal::committed_superblock(current, transaction_id),
        ),
{
    let encoded = journal::record_bytes(journal::commit_record(current, transaction_id, entries));
    let first = journal::journal_writes(current.journal_start_block, encoded);
    let written = journal::committed_superblock(current, transaction_id);
    let last = superblock::superblock_writes(written);
    let writes = journal::commit_writes(current, transaction_id, entries);
    let rest = entries + last;
    lemma_journal_writes(disk, stored, current, transaction_id, entries);
    assert(writes =~= first + rest);
    block_io::lemma_apply_writes_len(disk, writes);
    assert forall|i: int| 0 <= i < rest.len() implies !(stored.journal_start_block
        <= (#[trigger] rest[i]).address < stored.journal_start_block
        + stored.journal_size_in_blocks) by {
        if i < entries.len() {
            assert(rest[i] == entries[i]);
            assert(in_data_area(disk, stored, entries[i].address));
        }
    }
    assert forall|address: u64|
        stored.journal_start_block <= address < stored.journal_start_block
            + stored.journal_size_in_blocks implies #[trigger] block_io::disk_block(after, address)
        == block_io::block_after(disk, first + rest, address) by {
        block_io::lemma_block_after(disk, writes, address);
    }
    lemma_record_is_pending(disk, after, stored, current, transaction_id, entries, rest);
    lemma_committed_superblock_valid(current, transaction_id, 1);
    block_io::lemma_block_after(disk, writes, 1);
    assert(writes.last() == last[1]);
    lemma_found_superblock(after, 1, written);
    assert forall|address: u64| #[trigger]
        in_data_area(disk, stored, address) implies block_io::disk_block(after, address)
        == block_io::block_after(disk, entries, address) by {
        block_io::lemma_block_after(disk, writes, address);
        block_io::lemma_last_write_joins(first, rest, address);
        block_io::lemma_last_write_joins(entries, last, address);
        block_io::lemma_no_write(last, address);
        assert forall|i: int| 0 <= i < first.len() implies (#[trigger] first[i]).address
            != address by {}
        block_io::lemma_no_write(first, address);
    }
}

/// A commit that was carried out is found by the next mount, with nothing left to
/// recover.
pub proof fn law_complete_commit_is_found(
    disk: Seq<u8>,
    after: Seq<u8>,
    stored: BafsSuperblock,
    current: BafsSuperblock,
    transaction_id: u64,
    entries: Seq<BlockWrite>,
)
    requires
        commit_begins(disk, stored, current, transaction_id, entries),
        block_io::performed(
            disk,
            journal::commit_writes(current, transaction_id, entries),
            after,
            true,
        ),
    ensures
        superblock::superblock_at(after, 1) == Ok::<BafsSuperblock, BafsError>(
            journal::committed_superblock(current, transaction_id),
        ),
        journal::pending_record(
            after,
            journal::committed_superblock(current, transaction_id),
        ) is None,
        state_after(
            disk,
            after,
            stored,
            current,
            transaction_id,
            entries,
            journal::committed_superblock(current, transaction_id),
        ),
{
    let written = journal::committed_superblock(current, transaction_id);
    if entries.len() > 0 {
        lemma_complete_commit(disk, after, stored, current, transaction_id, entries);
    } else {
        let writes = superblock::superblock_writes(written);
        lemma_committed_superblock_valid(current, transaction_id, 1);
        block_io::lemma_apply_writes_len(disk, writes);
        lemma_untouched_data(disk, after, stored, writes, -1);
        block_io::lemma_block_after(disk, writes, 1);
        block_io::lemma_single_write(writes, 1);
        lemma_found_superblock(after, 1, written);
        assert forall|address: u64|
            stored.journal_start_block <= address < stored.journal_start_block
                + stored.journal_size_in_blocks implies #[trigger] block_io::disk_block(
            after,
            address,
        ) == block_io::disk_block(disk, address) by {}
        lemma_same_journal(after, disk, stored);
        lemma_older_record(
            journal::journal_area(after, stored),
            stored.last_committed_transaction_id,
            transaction_id,
        );
        assert forall|address: u64| #[trigger]
            in_data_area(disk, stored, address) implies block_io::disk_block(after, address)
            == block_io::block_after(disk, entries, address) by {}
    }
}

/// A commit is atomic: whatever write of it a crash cuts off, and if none is cut
/// off, the next mount finds the volume either as it was before the commit or
/// as the commit was to leave it.
pub proof fn law_commit_is_atomic(
    disk: Seq<u8>,
    after: Seq<u8>,
    stored: BafsSuperblock,
    current: BafsSuperblock,
    transaction_id: u64,
    entries: Seq<BlockWrite>,
    complete: bool,
)
    requires
        commit_begins(disk, stored, current, transaction_id, entries),
        checksums_tell(after, stored, current, transaction_id, entries),
        block_io::performed(
            disk,
            journal::commit_writes(current, transaction_id, entries),
            after,
            complete,
        ),
    ensures
        all_or_nothing(disk, after, stored, current, transaction_id, entries),
{
    if entries.len() == 0 {
        assert(entries =~= Seq::empty());
        lemma_commit_without_blocks(disk, after, stored, current, transaction_id, complete);
    } else if complete {
        lemma_complete_commit(disk, after, stored, current, transaction_id, entries);
    } else {
        let writes = journal::commit_writes(current, transaction_id, entries);
        let at = choose|at: int| #[trigger] block_io::interrupted_at(disk, writes, after, at);
        if at < journal::journal_writes(
            current.journal_start_block,
            journal::record_bytes(journal::commit_record(current, transaction_id, entries)),
        ).len() {
            lemma_cut_off_in_journal(
                disk,
                after,
                stored,
                current,
                transaction_id,
                entries,
                at,
            );
        } else {
            lemma_cut_off_behind_journal(
                disk,
                after,
                stored,
                current,
                transaction_id,
                entries,
                at,
            );
        }
    }
}

/// The mount after a commit, whatever write of it was cut off, can carry out what
/// it finds in the journal.
pub proof fn lemma_recovery_possible(
    disk: Seq<u8>,
    after: Seq<u8>,
    stored: BafsSuperblock,
    current: BafsSuperblock,
    transaction_id: u64,
    entries: Seq<BlockWrite>,
    complete: bool,
)
    requires
        commit_begins(disk, stored, current, transaction_id, entries),
        checksums_tell(after, stored, current, transaction_id, entries),
        block_io::performed(
            disk,
            journal::commit_writes(current, transaction_id, entries),
            after,
            complete,
        ),
    ensures
        after.len() == disk.len(),
        mounted_superblock(after) is Ok,
        recovery_possible(after, mounted_superblock(after)->Ok_0),
{
    law_commit_is_atomic(disk, after, stored, current, transaction_id, entries, complete);
    let writes = journal::commit_writes(current, transaction_id, entries);
    if complete {
        block_io::lemma_apply_writes_len(disk, writes);
    } else {
        let at = choose|at: int| #[trigger] block_io::interrupted_at(disk, writes, after, at);
        block_io::lemma_apply_writes_len(disk, writes.take(at));
    }
    let found = mounted_superblock(after)->Ok_0;
    let area = journal::journal_area(after, stored);
    let record = journal::commit_record(current, transaction_id, entries);
    if found == stored {
        lemma_recovery_on_disk(disk, after, stored, current, transaction_id, entries);
    } else if journal::pending_record(after, stored) is Some {
        lemma_committed_record(record, area, stored.last_committed_transaction_id);
    } else {
        lemma_older_record(area, stored.last_committed_transaction_id, transaction_id);
    }
}

/// A recovery may be cut off as well, any number of times: whatever write of it a
/// crash cuts off, the next mount finds the volume as the commit was to leave it.
/// Either there is nothing left to recover, or the same record is carried out
/// once more.
pub proof fn law_recovery_can_be_repeated(
    disk: Seq<u8>,
    middle: Seq<u8>,
    after: Seq<u8>,
    stored: BafsSuperblock,
    current: BafsSuperblock,
    transaction_id: u64,
    entries: Seq<BlockWrite>,
    complete: bool,
)
    requires
        commit_begins(disk, stored, current, transaction_id, entries),
        recovery_begins(disk, middle, stored, current, transaction_id, entries),
        block_io::performed(
            middle,
            journal::recovery_writes(
                stored,
                journal::commit_record(current, transaction_id, entries),
            ),
            after,
            complete,
        ),
        checksums_tell(after, stored, current, transaction_id, entries),
    ensures
        mounted_superblock(after) is Ok,
        ({
            let found = mounted_superblock(after)->Ok_0;
            &&& recovery_possible(after, found)
            &&& state_after(
                disk,
                disk_after_recovery(after, found),
                stored,
                current,
                transaction_id,
                entries,
                superblock_after_recovery(after, found),
            )
            &&& journal::pending_record(after, found) is None || recovery_begins(
                disk,
                after,
                stored,
                current,
                transaction_id,
                entries,
            )
        }),
{
    let record = journal::commit_record(current, transaction_id, entries);
    let written = journal::committed_superblock(current, transaction_id);
    let last = superblock::superblock_writes(written);
    let writes = journal::recovery_writes(stored, record);
    lemma_recovery_writes(stored, current, transaction_id, entries);
    lemma_recovery_on_disk(disk, middle, stored, current, transaction_id, entries);
    lemma_committed_superblock_valid(current, transaction_id, 1);
    lemma_committed_superblock_valid(current, transaction_id, 2);
    let at = if complete {
        writes.len() as int
    } else {
        choose|at: int| #[trigger] block_io::interrupted_at(middle, writes, after, at)
    };
    let done = writes.take(at);
    assert(block_io::writes_on_disk(middle, done)) by {
        assert(complete ==> done =~= writes);
    }
    block_io::lemma_apply_writes_len(middle, done);
    assert(after.len() == middle.len()) by {
        assert(complete ==> done =~= writes);
        assert(!complete ==> block_io::interrupted_at(middle, writes, after, at));
    }
    assert forall|address: u64|
        block_io::block_on_disk(middle, address) && (complete || address
            != writes[at].address) implies #[trigger] block_io::disk_block(after, address)
        == block_io::block_after(middle, done, address) by {
        if complete {
            assert(done =~= writes);
            block_io::lemma_block_after(middle, writes, address);
        } else {
            block_io::lemma_block_after_interruption(middle, writes, after, at, address);
        }
    }
    assert forall|i: int| 0 <= i < writes.len() implies {
        ||| i < entries.len() && writes[i] == entries[i]
        ||| i == entries.len() && writes[i] == last[0]
        ||| i == entries.len() + 1 && writes[i] == last[1]
    } by {}
    assert forall|address: u64|
        stored.journal_start_block <= address < stored.journal_start_block
            + stored.journal_size_in_blocks implies #[trigger] block_io::disk_block(after, address)
        == block_io::disk_block(middle, address) by {
        assert forall|i: int| 0 <= i < writes.len() implies (#[trigger] writes[i]).address
            != address by {
            if i < entries.len() {
                assert(in_data_area(disk, stored, entries[i].address));
            }
        }
        assert forall|i: int| 0 <= i < done.len() implies (#[trigger] done[i]).address
            != address by {
            assert(done[i] == writes[i]);
        }
        block_io::lemma_no_write(done, address);
    }
    lemma_same_journal(after, middle, stored);
    lemma_committed_record(
        record,
        journal::journal_area(after, stored),
        stored.last_committed_transaction_id,
    );
    assert forall|address: u64| #[trigger]
        in_data_area(disk, stored, address) && block_io::last_write(entries, address)
            is None implies block_io::disk_block(after, address) == block_io::disk_block(
        disk,
        address,
    ) by {
        assert forall|i: int| 0 <= i < writes.len() implies (#[trigger] writes[i]).address
            != address by {
            if i < entries.len() && entries[i].address == address {
                lemma_entry_is_last(entries, i);
            }
        }
        assert forall|i: int| 0 <= i < done.len() implies (#[trigger] done[i]).address
            != address by {
            assert(done[i] == writes[i]);
        }
        block_io::lemma_no_write(done, address);
    }
    lemma_replay(disk, after, stored, current, transaction_id, entries);
    lemma_recovery_on_disk(disk, after, stored, current, transaction_id, entries);
    if at < entries.len() + 1 {
        assert forall|i: int| 0 <= i <= at implies (#[trigger] writes[i]).address != 1 by {
            if i < entries.len() {
                assert(in_data_area(disk, stored, entries[i].address));
            }
        }
        assert forall|i: int| 0 <= i < done.len() implies (#[trigger] done[i]).address != 1 by {
            assert(done[i] == writes[i]);
        }
        block_io::lemma_no_write(done, 1);
        lemma_same_superblock(after, middle, 1);
    } else {
        assert forall|address: u64| #[trigger]
            in_data_area(disk, stored, address) implies block_io::disk_block(after, address)
            == block_io::block_after(disk, entries, address) by {
            let behind = done.skip(entries.len() as int);
            assert(done =~= entries + behind);
            block_io::lemma_last_write_joins(entries, behind, address);
            assert forall|i: int| 0 <= i < behind.len() implies (#[trigger] behind[i]).address
                != address by {
                assert(behind[i] == writes[entries.len() + i]);
            }
            block_io::lemma_no_write(behind, address);
        }
        assert(state_after(disk, after, stored, current, transaction_id, entries, written));
        if complete {
            assert(done =~= writes);
            block_io::lemma_single_write(done, (entries.len() + 1) as int);
            lemma_found_superblock(after, 1, written);
        } else {
            assert(done =~= entries.push(last[0]));
            block_io::lemma_single_write(done, entries.len() as int);
            lemma_found_superblock(after, 2, written);
        }
    }
}

/// A recovery writes to no block of the journal, and leaves the journal where it is.
pub open spec fn recovery_spares_journal(disk: Seq<u8>, superblock: BafsSuperblock) -> bool {
    match journal::pending_record(disk, superblock) {
        None => true,
        Some(record) => {
            let writes = journal::recovery_writes(superblock, record);
            let recovered = journal::recovered_superblock(superblock, record);
            &&& recovered.journal_start_block == superblock.journal_start_block
            &&& recovered.journal_size_in_blocks == superblock.journal_size_in_blocks
            &&& forall|i: int|
                0 <= i < writes.len() ==> !(superblock.journal_start_block <= (
                #[trigger] writes[i]).address < superblock.journal_start_block
                    + superblock.journal_size_in_blocks)
        },
    }
}

/// Once a recovery succeeded, there is nothing left to recover: the next one writes
/// nothing, leaves the superblock as it is, and reports that there was no record.
pub proof fn law_recovery_leaves_nothing(
    disk: Seq<u8>,
    middle: Seq<u8>,
    after: Seq<u8>,
    superblock: BafsSuperblock,
    recovered: BafsSuperblock,
    last: BafsSuperblock,
    first_reliable: bool,
    second_reliable: bool,
    found: bool,
    result: Result<bool, BafsError>,
)
    requires
        disk.len() <= u64::MAX * 512,
        recovery_spares_journal(disk, superblock),
        journal::recovery_outcome(
            disk,
            middle,
            first_reliable,
            superblock,
            recovered,
            Ok(found),
        ),
        journal::recovery_outcome(middle, after, second_reliable, recovered, last, result),
    ensures
        after == middle,
        last == recovered,
        result == Ok::<bool, BafsError>(false) || result == Err::<bool, BafsError>(
            BafsError::InputOutputError,
        ) && !second_reliable,
{
    if let Some(record) = journal::pending_record(disk, superblock) {
        let writes = journal::recovery_writes(superblock, record);
        block_io::lemma_apply_writes_len(disk, writes);
        assert forall|address: u64|
            superblock.journal_start_block <= address < superblock.journal_start_block
                + superblock.journal_size_in_blocks implies #[trigger] block_io::disk_block(
            middle,
            address,
        ) == block_io::disk_block(disk, address) by {
            block_io::lemma_no_write(writes, address);
            block_io::lemma_block_after(disk, writes, address);
        }
        lemma_same_journal(middle, disk, superblock);
        lemma_committed_record(
            record,
            journal::journal_area(disk, superblock),
            superblock.last_committed_transaction_id,
        );
        assert(journal::journal_area(middle, recovered) == journal::journal_area(
            middle,
            superblock,
        ));
    }
}

} // verus!
