//! The write-ahead journal: commit and crash recovery.
//!
//! A commit first writes a record of all its blocks, and of the superblock that
//! goes with them, to the journal. Only after that does it write the blocks to
//! their places, and the superblock last. Where it is cut off before the record
//! is complete, nothing else has changed; where it is cut off afterwards, the
//! next mount carries the record out again.
//!
//! ```text
//! offset  size  field
//!      0     8  magic "BAFSJRNL"
//!      8     8  transaction
//!     16     4  number of blocks n
//!     20   8*n  addresses of the blocks
//!      .. 4096*n  the blocks
//!      ..     4  zero
//!      ..     4  checksum of everything before
//! ```

use std::collections::BTreeMap;
use vstd::prelude::*;
use vstd::slice::slice_subrange;
use crate::block_device::BlockDevice;
use crate::block_io;
use crate::block_io::BlockWrite;
use crate::btree::store;
use crate::bytes;
use crate::checksum;
use crate::error::BafsError;
use crate::superblock;
use crate::superblock::BafsSuperblock;

verus! {

broadcast use {
    crate::bytes::lemma_le_bytes_len,
    vstd::std_specs::btree::group_btree_axioms,
};

/// Identifies the start of a commit record.
pub const JOURNAL_COMMIT_RECORD_MAGIC: [u8; 8] = [
    0x42,
    0x41,
    0x46,
    0x53,
    0x4A,
    0x52,
    0x4E,
    0x4C,
];

/// A write transaction; the blocks that it wrote are in the volume's cache.
pub struct BafsTransaction {
    /// Greater than the id of every transaction before.
    pub transaction_id: u64,
}

/// Begin a write transaction.
pub fn begin_transaction(next_transaction_id: u64) -> (transaction: BafsTransaction)
    ensures
        transaction.transaction_id == next_transaction_id,
{
    BafsTransaction { transaction_id: next_transaction_id }
}

/// What a commit record holds.
pub struct CommitRecord {
    pub transaction_id: u64,
    pub entries: Seq<BlockWrite>,
}

/// The addresses of the entries, one after the other.
pub open spec fn addresses_bytes(entries: Seq<BlockWrite>) -> Seq<u8>
    decreases entries.len(),
{
    if entries.len() == 0 {
        Seq::empty()
    } else {
        addresses_bytes(entries.drop_last()) + bytes::le_bytes(entries.last().address as nat, 8)
    }
}

/// The blocks of the entries, one after the other.
pub open spec fn data_bytes(entries: Seq<BlockWrite>) -> Seq<u8>
    decreases entries.len(),
{
    if entries.len() == 0 {
        Seq::empty()
    } else {
        data_bytes(entries.drop_last()) + entries.last().data
    }
}

/// The encoding of a commit record, without its checksum.
pub open spec fn record_body(record: CommitRecord) -> Seq<u8> {
    JOURNAL_COMMIT_RECORD_MAGIC@ + bytes::le_bytes(record.transaction_id as nat, 8)
        + bytes::le_bytes(record.entries.len(), 4) + addresses_bytes(record.entries) + data_bytes(
        record.entries,
    ) + bytes::zeros(4)
}

/// The encoding of a commit record.
pub open spec fn record_bytes(record: CommitRecord) -> Seq<u8> {
    record_body(record) + bytes::le_bytes(checksum::crc32c(record_body(record)) as nat, 4)
}

/// Size of a record with `count` entries, without its checksum.
pub open spec fn record_body_size(count: nat) -> nat {
    24 + 8 * count + 4096 * count
}

/// The contents of the journal.
pub open spec fn journal_area(disk: Seq<u8>, superblock: BafsSuperblock) -> Seq<u8> {
    disk.subrange(
        superblock.journal_start_block * 4096,
        (superblock.journal_start_block + superblock.journal_size_in_blocks) * 4096,
    )
}

/// Whether the journal lies on the device.
pub open spec fn journal_on_disk(disk: Seq<u8>, superblock: BafsSuperblock) -> bool {
    (superblock.journal_start_block + superblock.journal_size_in_blocks) * 4096 <= disk.len()
}

/// The entry at `index` in a journal that holds a record with `count` entries.
pub open spec fn entry_at(journal: Seq<u8>, count: nat, index: int) -> BlockWrite {
    BlockWrite {
        address: bytes::field(journal, 20 + 8 * index, 8) as u64,
        data: journal.subrange(
            20 + 8 * count + 4096 * index,
            20 + 8 * count + 4096 * index + 4096,
        ),
    }
}

/// The record in a journal, if it is complete and newer than
/// `last_committed_transaction_id`.
#[verifier::opaque]
pub open spec fn record_in_journal(
    journal: Seq<u8>,
    last_committed_transaction_id: u64,
) -> Option<CommitRecord> {
    let transaction_id = bytes::field(journal, 8, 8) as u64;
    let count = bytes::field(journal, 16, 4);
    let size = record_body_size(count) as int;
    if journal.len() < 24 || journal.take(8) != JOURNAL_COMMIT_RECORD_MAGIC@ {
        None
    } else if transaction_id <= last_committed_transaction_id {
        None
    } else if journal.len() < size + 4 {
        None
    } else if bytes::field(journal, size, 4) != checksum::crc32c(journal.take(size)) {
        None
    } else {
        Some(
            CommitRecord {
                transaction_id,
                entries: Seq::new(count, |i: int| entry_at(journal, count, i)),
            },
        )
    }
}

/// What is written to store `data` from the block `start` on.
pub open spec fn journal_writes(start: u64, data: Seq<u8>) -> Seq<BlockWrite> {
    Seq::new(
        block_io::blocks_for(data.len()),
        |i: int| BlockWrite { address: (start + i) as u64, data: block_io::block_of(data, i) },
    )
}

/// The entries are the blocks of the cache, in the order of their addresses.
pub open spec fn lists_cache(cache: Map<u64, Vec<u8>>, entries: Seq<BlockWrite>) -> bool {
    &&& forall|i: int, j: int|
        0 <= i < j < entries.len() ==> (#[trigger] entries[i]).address < (#[trigger] entries[j]).address
    &&& forall|i: int|
        0 <= i < entries.len() ==> cache.contains_key((#[trigger] entries[i]).address)
            && entries[i].data == cache[entries[i].address]@
    &&& forall|address: u64| #[trigger]
        cache.contains_key(address) ==> exists|i: int|
            0 <= i < entries.len() && (#[trigger] entries[i]).address == address
}

/// The superblock once the transaction is committed.
pub open spec fn committed_superblock(
    superblock: BafsSuperblock,
    transaction_id: u64,
) -> BafsSuperblock {
    superblock::sealed(
        BafsSuperblock { last_committed_transaction_id: transaction_id, ..superblock },
    )
}

/// The record of a transaction: its blocks, and the superblock behind them.
pub open spec fn commit_record(
    superblock: BafsSuperblock,
    transaction_id: u64,
    entries: Seq<BlockWrite>,
) -> CommitRecord {
    CommitRecord {
        transaction_id,
        entries: entries.push(
            BlockWrite {
                address: 1,
                data: superblock::superblock_block(
                    committed_superblock(superblock, transaction_id),
                ),
            },
        ),
    }
}

/// Everything that a commit writes, in order.
pub open spec fn commit_writes(
    superblock: BafsSuperblock,
    transaction_id: u64,
    entries: Seq<BlockWrite>,
) -> Seq<BlockWrite> {
    let last = superblock::superblock_writes(committed_superblock(superblock, transaction_id));
    if entries.len() == 0 {
        last
    } else {
        journal_writes(
            superblock.journal_start_block,
            record_bytes(commit_record(superblock, transaction_id, entries)),
        ) + entries + last
    }
}

/// Whether the record of a transaction is too large for the journal.
pub open spec fn commit_too_large(superblock: BafsSuperblock, entry_count: nat) -> bool {
    entry_count > 0 && (entry_count + 1 > u32::MAX || record_body_size(entry_count + 1) + 4
        > superblock.journal_size_in_blocks * 4096)
}

/// The superblock that a record ends with, if it does.
pub open spec fn recorded_superblock(record: CommitRecord) -> Option<BafsSuperblock> {
    let image = superblock::superblock_from(record.entries.last().data.take(512));
    if record.entries.len() > 0 && record.entries.last().address == 1
        && superblock::superblock_error(image, 1) is None {
        Some(image)
    } else {
        None
    }
}

/// The blocks of a record, without the superblock.
pub open spec fn recorded_blocks(record: CommitRecord) -> Seq<BlockWrite> {
    if recorded_superblock(record) is Some {
        record.entries.drop_last()
    } else {
        record.entries
    }
}

/// The superblock after a record was carried out again: the one that the record
/// ends with, or else the one that was found.
pub open spec fn recovered_superblock(
    superblock: BafsSuperblock,
    record: CommitRecord,
) -> BafsSuperblock {
    let base = match recorded_superblock(record) {
        Some(image) => image,
        None => superblock,
    };
    committed_superblock(base, record.transaction_id)
}

/// Everything that carrying out a record again writes, in order. As in a commit,
/// the superblock comes last, and its backup before it: one of the two is whole
/// at any time.
pub open spec fn recovery_writes(superblock: BafsSuperblock, record: CommitRecord) -> Seq<
    BlockWrite,
> {
    recorded_blocks(record) + superblock::superblock_writes(
        recovered_superblock(superblock, record),
    )
}

/// The addresses of the cached blocks, in growing order.
fn cached_addresses(dirty_cache: &BTreeMap<u64, Vec<u8>>) -> (addresses: Vec<u64>)
    ensures
        forall|i: int, j: int|
            0 <= i < j < addresses@.len() ==> addresses@[i] < addresses@[j],
        forall|i: int|
            0 <= i < addresses@.len() ==> dirty_cache@.contains_key(#[trigger] addresses@[i]),
        forall|address: u64| #[trigger]
            dirty_cache@.contains_key(address) ==> exists|i: int|
                0 <= i < addresses@.len() && #[trigger] addresses@[i] == address,
{
    broadcast use vstd::laws_cmp::group_laws_cmp;

    let mut addresses: Vec<u64> = Vec::new();
    assert(vstd::std_specs::btree::key_obeys_cmp_spec::<u64>());
    let ghost listed = vstd::std_specs::iter::IteratorSpec::remaining(
        &vstd::std_specs::btree::spec_btree_map_iter(dirty_cache),
    );
    for entry in entries: dirty_cache.iter()
        invariant
            listed == entries.seq(),
            addresses@.len() == entries.index(),
            forall|i: int|
                0 <= i < addresses@.len() ==> #[trigger] addresses@[i] == *listed[i].0,
    {
        addresses.push(*entry.0);
    }
    proof {
        let keys = listed.map_values(|kv: (&u64, &Vec<u8>)| *kv.0);
        assert(keys =~= addresses@);
        assert(vstd::std_specs::btree::increasing_seq(keys));
        assert(vstd::laws_cmp::obeys_cmp::<u64>());
        assert forall|i: int, j: int| 0 <= i < j < addresses@.len() implies addresses@[i]
            < addresses@[j] by {
            assert(vstd::std_specs::cmp::OrdSpec::cmp_spec(&keys[i], &keys[j]) is Less);
        }
        assert forall|address: u64| #[trigger]
            dirty_cache@.contains_key(address) implies exists|i: int|
            0 <= i < addresses@.len() && #[trigger] addresses@[i] == address by {
            assert(listed.contains((&address, &dirty_cache@[address])));
            let i = choose|i: int|
                0 <= i < listed.len() && listed[i] == (&address, &dirty_cache@[address]);
            assert(addresses@[i] == address);
        }
    }
    addresses
}

/// The cached blocks at the given addresses.
pub open spec fn cache_entries(cache: Map<u64, Vec<u8>>, addresses: Seq<u64>) -> Seq<BlockWrite> {
    addresses.map_values(|address: u64| BlockWrite { address, data: cache[address]@ })
}

pub proof fn lemma_entries_len(entries: Seq<BlockWrite>)
    requires
        forall|i: int| 0 <= i < entries.len() ==> (#[trigger] entries[i]).data.len() == 4096,
    ensures
        addresses_bytes(entries).len() == 8 * entries.len(),
        data_bytes(entries).len() == 4096 * entries.len(),
    decreases entries.len(),
{
    if entries.len() > 0 {
        assert forall|i: int| 0 <= i < entries.drop_last().len() implies (#[trigger] entries.drop_last()[i]).data.len()
            == 4096 by {
            assert(entries.drop_last()[i] == entries[i]);
        }
        lemma_entries_len(entries.drop_last());
        assert(entries[entries.len() - 1].data.len() == 4096);
    }
}

pub proof fn lemma_record_len(record: CommitRecord)
    requires
        forall|i: int|
            0 <= i < record.entries.len() ==> (#[trigger] record.entries[i]).data.len() == 4096,
    ensures
        record_body(record).len() == record_body_size(record.entries.len()),
        record_bytes(record).len() == record_body_size(record.entries.len()) + 4,
{
    lemma_entries_len(record.entries);
}

/// The commit record of the cached blocks and the superblock that goes with
/// them.
fn build_commit_record(
    dirty_cache: &BTreeMap<u64, Vec<u8>>,
    addresses: &Vec<u64>,
    superblock_image: &Vec<u8>,
    transaction_id: u64,
) -> (record: Vec<u8>)
    requires
        forall|i: int|
            0 <= i < addresses@.len() ==> dirty_cache@.contains_key(#[trigger] addresses@[i]),
        addresses@.len() < u32::MAX,
    ensures
        record@ == record_bytes(
            (CommitRecord {
                transaction_id,
                entries: cache_entries(dirty_cache@, addresses@).push(
                    BlockWrite { address: 1, data: superblock_image@ },
                ),
            }),
        ),
{
    let ghost entries = cache_entries(dirty_cache@, addresses@);
    let ghost all = entries.push(BlockWrite { address: 1, data: superblock_image@ });
    let mut record: Vec<u8> = Vec::new();
    bytes::append_slice(&mut record, JOURNAL_COMMIT_RECORD_MAGIC.as_slice());
    bytes::append_le(&mut record, transaction_id, 8);
    bytes::append_le(&mut record, addresses.len() as u64 + 1, 4);
    let ghost header = record@;
    assert(header =~= JOURNAL_COMMIT_RECORD_MAGIC@ + bytes::le_bytes(transaction_id as nat, 8)
        + bytes::le_bytes(all.len(), 4));
    let mut index: usize = 0;
    assert(entries.take(0) =~= Seq::empty());
    assert(record@ =~= header + addresses_bytes(entries.take(0)));
    while index < addresses.len()
        invariant
            index <= addresses@.len(),
            entries == cache_entries(dirty_cache@, addresses@),
            record@ == header + addresses_bytes(entries.take(index as int)),
        decreases addresses@.len() - index,
    {
        bytes::append_le(&mut record, addresses[index], 8);
        proof {
            assert(entries.take(index + 1).drop_last() =~= entries.take(index as int));
            assert(entries.take(index + 1).last() == entries[index as int]);
            assert(record@ =~= header + addresses_bytes(entries.take(index + 1)));
        }
        index = index + 1;
    }
    bytes::append_le(&mut record, 1, 8);
    let ghost with_addresses = record@;
    proof {
        assert(entries.take(entries.len() as int) =~= entries);
        assert(all.drop_last() =~= entries);
        assert(record@ =~= header + addresses_bytes(all));
    }
    index = 0;
    assert(record@ =~= with_addresses + data_bytes(entries.take(0)));
    while index < addresses.len()
        invariant
            index <= addresses@.len(),
            entries == cache_entries(dirty_cache@, addresses@),
            forall|i: int|
                0 <= i < addresses@.len() ==> dirty_cache@.contains_key(#[trigger] addresses@[i]),
            record@ == with_addresses + data_bytes(entries.take(index as int)),
        decreases addresses@.len() - index,
    {
        let address: u64 = addresses[index];
        match dirty_cache.get(&address) {
            Some(block_data) => {
                bytes::append_slice(&mut record, block_data.as_slice());
            },
            None => {
                assert(false);
            },
        }
        proof {
            assert(entries.take(index + 1).drop_last() =~= entries.take(index as int));
            assert(entries.take(index + 1).last() == entries[index as int]);
            assert(record@ =~= with_addresses + data_bytes(entries.take(index + 1)));
        }
        index = index + 1;
    }
    bytes::append_slice(&mut record, superblock_image.as_slice());
    assert(record@ =~= with_addresses + data_bytes(all));
    bytes::append_le(&mut record, 0, 4);
    proof {
        assert(bytes::le_bytes(0, 4) =~= bytes::zeros(4)) by {
            reveal_with_fuel(bytes::le_bytes, 5);
        }
        assert(record@ =~= record_body(CommitRecord { transaction_id, entries: all }));
    }
    let checksum: u32 = checksum::compute_crc32c(record.as_slice());
    bytes::append_le(&mut record, checksum as u64, 4);
    record
}

/// Write `data` to the start of the journal.
fn write_bytes_to_journal<D: BlockDevice>(
    device: &mut D,
    superblock: &BafsSuperblock,
    data: &Vec<u8>,
) -> (result: Result<(), BafsError>)
    ensures
        final(device).reliable() == old(device).reliable(),
        data@.len() > superblock.journal_size_in_blocks * 4096 ==> {
            &&& result == Err::<(), BafsError>(BafsError::OutOfSpace)
            &&& final(device).contents() == old(device).contents()
        },
        data@.len() <= superblock.journal_size_in_blocks * 4096 ==> {
            let writes = journal_writes(superblock.journal_start_block, data@);
            &&& block_io::performed(
                old(device).contents(),
                writes,
                final(device).contents(),
                result is Ok,
            )
            &&& result matches Err(error) ==> error == BafsError::InputOutputError
            &&& old(device).reliable() && block_io::writes_on_disk(
                old(device).contents(),
                writes,
            ) ==> result is Ok
        },
{
    let length: u64 = data.len() as u64;
    let needed_blocks: u64 = if length == 0 {
        0
    } else {
        (length - 1) / 4096 + 1
    };
    if needed_blocks > superblock.journal_size_in_blocks {
        return Err(BafsError::OutOfSpace);
    }
    let ghost before = device.contents();
    let ghost start = superblock.journal_start_block;
    let ghost writes = journal_writes(start, data@);
    assert(writes.len() == needed_blocks);
    assert(writes.take(0) =~= Seq::empty());
    let mut index: u64 = 0;
    while index < needed_blocks
        invariant
            index <= needed_blocks,
            start == superblock.journal_start_block,
            data@.len() == length,
            data@.len() <= usize::MAX,
            data@.len() <= superblock.journal_size_in_blocks * 4096,
            needed_blocks == journal_writes(start, data@).len(),
            writes == journal_writes(start, data@),
            index > 0 ==> start + index <= u64::MAX,
            block_io::performed(before, writes.take(index as int), device.contents(), true),
            device.contents().len() == before.len(),
            device.reliable() == old(device).reliable(),
            before == old(device).contents(),
        decreases needed_blocks - index,
    {
        let block_data = block_io::block_at(data.as_slice(), index as usize);
        let address: u64 = superblock.journal_start_block + index;
        let ghost middle = device.contents();
        let ghost single = seq![BlockWrite { address, data: block_data@ }];
        proof {
            assert(writes[index as int].address == address);
            assert(writes.take(index as int) + single =~= writes.take(index + 1));
            assert(writes.take(index + 1) + writes.skip(index + 1) =~= writes);
        }
        let written = block_io::write_block_to_device(device, address, block_data.as_slice());
        proof {
            block_io::lemma_performed_joins(
                before,
                writes.take(index as int),
                middle,
                single,
                device.contents(),
                written is Ok,
            );
        }
        match written {
            Err(error) => {
                proof {
                    block_io::lemma_interrupted_extends(
                        before,
                        writes.take(index + 1),
                        device.contents(),
                        writes.skip(index + 1),
                    );
                }
                return Err(error);
            },
            Ok(_) => {
                let total: u64 = device.total_sector_count();
                proof {
                    block_io::lemma_apply_writes_len(before, writes.take(index + 1));
                    assert((address + 1) * 4096 <= total * 512);
                }
            },
        }
        index = index + 1;
    }
    assert(writes.take(writes.len() as int) =~= writes);
    Ok(())
}

/// Write the cached blocks at the given addresses to their places.
fn write_cached_blocks<D: BlockDevice>(
    device: &mut D,
    dirty_cache: &BTreeMap<u64, Vec<u8>>,
    addresses: &Vec<u64>,
) -> (result: Result<(), BafsError>)
    requires
        store::cache_valid(dirty_cache@),
        forall|i: int|
            0 <= i < addresses@.len() ==> dirty_cache@.contains_key(#[trigger] addresses@[i]),
    ensures
        final(device).reliable() == old(device).reliable(),
        block_io::performed(
            old(device).contents(),
            cache_entries(dirty_cache@, addresses@),
            final(device).contents(),
            result is Ok,
        ),
        result matches Err(error) ==> error == BafsError::InputOutputError,
        old(device).reliable() && block_io::writes_on_disk(
            old(device).contents(),
            cache_entries(dirty_cache@, addresses@),
        ) ==> result is Ok,
{
    let ghost before = device.contents();
    let ghost writes = cache_entries(dirty_cache@, addresses@);
    let mut index: usize = 0;
    assert(writes.take(0) =~= Seq::empty());
    while index < addresses.len()
        invariant
            index <= addresses@.len(),
            store::cache_valid(dirty_cache@),
            forall|i: int|
                0 <= i < addresses@.len() ==> dirty_cache@.contains_key(#[trigger] addresses@[i]),
            writes == cache_entries(dirty_cache@, addresses@),
            block_io::performed(before, writes.take(index as int), device.contents(), true),
            device.contents().len() == before.len(),
            device.reliable() == old(device).reliable(),
            before == old(device).contents(),
        decreases addresses@.len() - index,
    {
        let address: u64 = addresses[index];
        let ghost middle = device.contents();
        let ghost single = seq![writes[index as int]];
        proof {
            assert(writes.take(index as int) + single =~= writes.take(index + 1));
            assert(writes.take(index + 1) + writes.skip(index + 1) =~= writes);
        }
        match dirty_cache.get(&address) {
            None => {
                assert(false);
            },
            Some(block_data) => {
                let written = block_io::write_block_to_device(
                    device,
                    address,
                    block_data.as_slice(),
                );
                proof {
                    assert(single =~= seq![BlockWrite { address, data: block_data@ }]);
                    block_io::lemma_performed_joins(
                        before,
                        writes.take(index as int),
                        middle,
                        single,
                        device.contents(),
                        written is Ok,
                    );
                }
                match written {
                    Err(error) => {
                        proof {
                            block_io::lemma_interrupted_extends(
                                before,
                                writes.take(index + 1),
                                device.contents(),
                                writes.skip(index + 1),
                            );
                        }
                        return Err(error);
                    },
                    Ok(_) => {
                        proof {
                            block_io::lemma_apply_writes_len(before, writes.take(index + 1));
                        }
                    },
                }
            },
        }
        index = index + 1;
    }
    assert(writes.take(writes.len() as int) =~= writes);
    Ok(())
}

/// Write all cached blocks to their places.
pub fn write_cache_to_device<D: BlockDevice>(
    device: &mut D,
    dirty_cache: &BTreeMap<u64, Vec<u8>>,
) -> (result: Result<(), BafsError>)
    requires
        store::cache_valid(dirty_cache@),
    ensures
        final(device).reliable() == old(device).reliable(),
        exists|entries: Seq<BlockWrite>|
            #![trigger lists_cache(dirty_cache@, entries)]
            lists_cache(dirty_cache@, entries) && block_io::performed(
                old(device).contents(),
                entries,
                final(device).contents(),
                result is Ok,
            ),
        result matches Err(error) ==> error == BafsError::InputOutputError && !(old(
            device,
        ).reliable() && forall|address: u64| #[trigger]
            dirty_cache@.contains_key(address) ==> block_io::block_on_disk(
                old(device).contents(),
                address,
            )),
{
    let addresses = cached_addresses(dirty_cache);
    proof {
        lemma_lists_cache(dirty_cache@, addresses@);
    }
    write_cached_blocks(device, dirty_cache, &addresses)
}

/// The cached blocks, in the order of their addresses.
proof fn lemma_lists_cache(cache: Map<u64, Vec<u8>>, addresses: Seq<u64>)
    requires
        store::cache_valid(cache),
        forall|i: int, j: int| 0 <= i < j < addresses.len() ==> addresses[i] < addresses[j],
        forall|i: int| 0 <= i < addresses.len() ==> cache.contains_key(#[trigger] addresses[i]),
        forall|address: u64| #[trigger]
            cache.contains_key(address) ==> exists|i: int|
                0 <= i < addresses.len() && #[trigger] addresses[i] == address,
    ensures
        lists_cache(cache, cache_entries(cache, addresses)),
{
    let entries = cache_entries(cache, addresses);
    assert forall|i: int| 0 <= i < entries.len() implies (#[trigger] entries[i]).address
        == addresses[i] && entries[i].data == cache[addresses[i]]@ by {}
    assert forall|address: u64| #[trigger] cache.contains_key(address) implies exists|i: int|
        0 <= i < entries.len() && (#[trigger] entries[i]).address == address by {
        let i = choose|i: int| 0 <= i < addresses.len() && #[trigger] addresses[i] == address;
        assert(entries[i].address == address);
    }
}

/// The outcome of a commit whose blocks are `entries`.
pub open spec fn commit_outcome(
    before: Seq<u8>,
    after: Seq<u8>,
    reliable: bool,
    superblock: BafsSuperblock,
    new_superblock: BafsSuperblock,
    transaction_id: u64,
    entries: Seq<BlockWrite>,
    result: Result<(), BafsError>,
) -> bool {
    let writes = commit_writes(superblock, transaction_id, entries);
    if commit_too_large(superblock, entries.len()) {
        &&& result == Err::<(), BafsError>(BafsError::OutOfSpace)
        &&& after == before
        &&& new_superblock == superblock
    } else {
        &&& block_io::performed(before, writes, after, result is Ok)
        &&& result is Ok || result == Err::<(), BafsError>(BafsError::InputOutputError)
        &&& reliable && block_io::writes_on_disk(before, writes) ==> result is Ok
        &&& result is Ok ==> new_superblock == committed_superblock(superblock, transaction_id)
        &&& new_superblock == superblock || new_superblock == committed_superblock(
            superblock,
            transaction_id,
        )
    }
}

/// Commit a transaction: write a record of its blocks to the journal, write the
/// blocks to their places, and write the superblock.
///
/// A transaction without blocks only writes the superblock.
pub fn commit_transaction<D: BlockDevice>(
    device: &mut D,
    transaction: &BafsTransaction,
    dirty_cache: &BTreeMap<u64, Vec<u8>>,
    superblock: &mut BafsSuperblock,
) -> (result: Result<(), BafsError>)
    requires
        store::cache_valid(dirty_cache@),
    ensures
        final(device).reliable() == old(device).reliable(),
        exists|entries: Seq<BlockWrite>|
            #![trigger lists_cache(dirty_cache@, entries)]
            lists_cache(dirty_cache@, entries) && commit_outcome(
                old(device).contents(),
                final(device).contents(),
                old(device).reliable(),
                *old(superblock),
                *final(superblock),
                transaction.transaction_id,
                entries,
                result,
            ),
{
    let addresses = cached_addresses(dirty_cache);
    let ghost entries = cache_entries(dirty_cache@, addresses@);
    let ghost before = device.contents();
    let ghost old_superblock = *superblock;
    let ghost sealed = committed_superblock(old_superblock, transaction.transaction_id);
    let ghost last = superblock::superblock_writes(sealed);
    let ghost writes = commit_writes(old_superblock, transaction.transaction_id, entries);
    proof {
        superblock::lemma_superblock_len(sealed);
        lemma_lists_cache(dirty_cache@, addresses@);
    }
    let mut new_superblock = *superblock;
    new_superblock.last_committed_transaction_id = transaction.transaction_id;
    if addresses.len() == 0 {
        *superblock = new_superblock;
        let result = superblock::write_superblock_to_device(device, superblock);
        proof {
            lemma_superblock_writes_on_disk(before, sealed);
        }
        return result;
    }
    if addresses.len() as u64 >= 0xFFFF_FFFF {
        return Err(BafsError::OutOfSpace);
    }
    new_superblock.seal_with_checksum();
    let image = superblock::superblock_to_block(&new_superblock);
    let record = build_commit_record(
        dirty_cache,
        &addresses,
        &image,
        transaction.transaction_id,
    );
    let ghost described = commit_record(old_superblock, transaction.transaction_id, entries);
    let ghost first = journal_writes(old_superblock.journal_start_block, record@);
    proof {
        assert(record@ == record_bytes(described));
        assert forall|i: int| 0 <= i < described.entries.len() implies (#[trigger] described.entries[i]).data.len()
            == 4096 by {
            if i < entries.len() {
                assert(described.entries[i] == entries[i]);
            }
        }
        lemma_record_len(described);
        assert(writes == first + entries + last);
        assert(first + (entries + last) =~= writes);
        lemma_parts_on_disk(before, first, entries, last);
    }
    match write_bytes_to_journal(device, superblock, &record) {
        Err(error) => {
            proof {
                if record@.len() <= old_superblock.journal_size_in_blocks * 4096 {
                    block_io::lemma_interrupted_extends(
                        before,
                        first,
                        device.contents(),
                        entries + last,
                    );
                }
            }
            return Err(error);
        },
        Ok(_) => {},
    }
    let ghost journaled = device.contents();
    proof {
        block_io::lemma_apply_writes_len(before, first);
    }
    match write_cached_blocks(device, dirty_cache, &addresses) {
        Err(error) => {
            proof {
                block_io::lemma_performed_joins(
                    before,
                    first,
                    journaled,
                    entries,
                    device.contents(),
                    false,
                );
                block_io::lemma_interrupted_extends(
                    before,
                    first + entries,
                    device.contents(),
                    last,
                );
            }
            return Err(error);
        },
        Ok(_) => {},
    }
    let ghost written = device.contents();
    proof {
        block_io::lemma_performed_joins(before, first, journaled, entries, written, true);
        block_io::lemma_apply_writes_len(journaled, entries);
    }
    superblock.last_committed_transaction_id = transaction.transaction_id;
    let result = superblock::write_superblock_to_device(device, superblock);
    proof {
        block_io::lemma_performed_joins(
            before,
            first + entries,
            written,
            last,
            device.contents(),
            result is Ok,
        );
        lemma_superblock_writes_on_disk(before, sealed);
    }
    result
}

pub proof fn lemma_superblock_writes_on_disk(disk: Seq<u8>, superblock: BafsSuperblock)
    ensures
        block_io::writes_on_disk(disk, superblock::superblock_writes(superblock)) <==> disk.len()
            >= 3 * 4096,
{
    superblock::lemma_superblock_len(superblock);
    let writes = superblock::superblock_writes(superblock);
    if block_io::writes_on_disk(disk, writes) {
        assert(block_io::block_on_disk(disk, writes[0].address));
    }
}

pub proof fn lemma_parts_on_disk(
    disk: Seq<u8>,
    first: Seq<BlockWrite>,
    second: Seq<BlockWrite>,
    third: Seq<BlockWrite>,
)
    ensures
        block_io::writes_on_disk(disk, first + second + third) <==> block_io::writes_on_disk(
            disk,
            first,
        ) && block_io::writes_on_disk(disk, second) && block_io::writes_on_disk(disk, third),
{
    let all = first + second + third;
    if block_io::writes_on_disk(disk, all) {
        assert forall|i: int| 0 <= i < first.len() implies block_io::block_on_disk(
            disk,
            (#[trigger] first[i]).address,
        ) && first[i].data.len() == 4096 by {
            assert(all[i] == first[i]);
        }
        assert forall|i: int| 0 <= i < second.len() implies block_io::block_on_disk(
            disk,
            (#[trigger] second[i]).address,
        ) && second[i].data.len() == 4096 by {
            assert(all[first.len() + i] == second[i]);
        }
        assert forall|i: int| 0 <= i < third.len() implies block_io::block_on_disk(
            disk,
            (#[trigger] third[i]).address,
        ) && third[i].data.len() == 4096 by {
            assert(all[first.len() + second.len() + i] == third[i]);
        }
    }
}

/// The record that a mount finds, if it has to be carried out again.
pub open spec fn pending_record(disk: Seq<u8>, superblock: BafsSuperblock) -> Option<CommitRecord> {
    record_in_journal(journal_area(disk, superblock), superblock.last_committed_transaction_id)
}

/// The outcome of a recovery.
pub open spec fn recovery_outcome(
    before: Seq<u8>,
    after: Seq<u8>,
    reliable: bool,
    superblock: BafsSuperblock,
    new_superblock: BafsSuperblock,
    result: Result<bool, BafsError>,
) -> bool {
    if !journal_on_disk(before, superblock) {
        &&& result == Err::<bool, BafsError>(BafsError::InputOutputError)
        &&& after == before
        &&& new_superblock == superblock
    } else {
        match pending_record(before, superblock) {
            None => {
                &&& result == Ok::<bool, BafsError>(false) || result == Err::<bool, BafsError>(
                    BafsError::InputOutputError,
                ) && !reliable
                &&& after == before
                &&& new_superblock == superblock
            },
            Some(record) => {
                let writes = recovery_writes(superblock, record);
                &&& result == Ok::<bool, BafsError>(true) || result == Err::<bool, BafsError>(
                    BafsError::InputOutputError,
                )
                &&& result is Ok ==> block_io::performed(before, writes, after, true)
                    && new_superblock == recovered_superblock(superblock, record)
                &&& result is Err ==> after == before || block_io::performed(
                    before,
                    writes,
                    after,
                    false,
                )
                &&& new_superblock == superblock || new_superblock == recovered_superblock(
                    superblock,
                    record,
                )
                &&& reliable && block_io::writes_on_disk(before, writes) ==> result is Ok
            },
        }
    }
}

/// Read `count` blocks from `start` on.
fn read_consecutive_blocks<D: BlockDevice>(device: &D, start: u64, count: u64) -> (result: Result<
    Vec<u8>,
    BafsError,
>)
    requires
        (start + count) * 4096 <= device.contents().len(),
    ensures
        match result {
            Ok(data) => data@ == device.contents().subrange(
                start * 4096,
                (start + count) * 4096,
            ),
            Err(error) => error == BafsError::InputOutputError && !device.reliable(),
        },
{
    let total: u64 = device.total_sector_count();
    let mut data: Vec<u8> = Vec::new();
    let mut index: u64 = 0;
    assert(data@ =~= device.contents().subrange(start * 4096, start * 4096));
    while index < count
        invariant
            index <= count,
            (start + count) * 4096 <= device.contents().len(),
            device.contents().len() == total * 512,
            data@ == device.contents().subrange(start * 4096, (start + index) * 4096),
        decreases count - index,
    {
        match block_io::read_block_from_device(device, start + index) {
            Err(error) => {
                return Err(error);
            },
            Ok(block_data) => {
                bytes::append_slice(&mut data, block_data.as_slice());
            },
        }
        assert(data@ =~= device.contents().subrange(start * 4096, (start + index + 1) * 4096));
        index = index + 1;
    }
    Ok(data)
}

proof fn lemma_field_of_prefix(whole: Seq<u8>, part: Seq<u8>, offset: int, count: int)
    requires
        part == whole.take(part.len() as int),
        part.len() <= whole.len(),
        0 <= offset,
        0 <= count,
        offset + count <= part.len(),
    ensures
        bytes::field(part, offset, count) == bytes::field(whole, offset, count),
{
    assert(part.subrange(offset, offset + count) =~= whole.subrange(offset, offset + count));
}

/// Write the first `limit` of the `count` blocks of a record that was read from
/// the journal to their places.
fn replay_record<D: BlockDevice>(
    device: &mut D,
    record: &Vec<u8>,
    count: u64,
    limit: u64,
    Ghost(journal): Ghost<Seq<u8>>,
    Ghost(entries): Ghost<Seq<BlockWrite>>,
) -> (result: Result<(), BafsError>)
    requires
        limit <= count <= u32::MAX,
        record@.len() <= journal.len(),
        record@ == journal.take(record@.len() as int),
        record_body_size(count as nat) + 4 <= record@.len(),
        entries == Seq::new(limit as nat, |i: int| entry_at(journal, count as nat, i)),
    ensures
        final(device).reliable() == old(device).reliable(),
        block_io::performed(
            old(device).contents(),
            entries,
            final(device).contents(),
            result is Ok,
        ),
        result matches Err(error) ==> error == BafsError::InputOutputError,
        old(device).reliable() && block_io::writes_on_disk(old(device).contents(), entries)
            ==> result is Ok,
{
    let ghost before = device.contents();
    let length: usize = record.len();
    let mut index: u64 = 0;
    assert(entries.take(0) =~= Seq::empty());
    while index < limit
        invariant
            index <= limit <= count <= u32::MAX,
            length == record@.len(),
            record@.len() <= journal.len(),
            record@ == journal.take(record@.len() as int),
            record_body_size(count as nat) + 4 <= record@.len(),
            entries == Seq::new(limit as nat, |i: int| entry_at(journal, count as nat, i)),
            block_io::performed(before, entries.take(index as int), device.contents(), true),
            device.contents().len() == before.len(),
            device.reliable() == old(device).reliable(),
            before == old(device).contents(),
        decreases limit - index,
    {
        proof {
            bytes::lemma_byte_capacities();
            lemma_field_of_prefix(journal, record@, 20 + 8 * index, 8);
        }
        let address: u64 = bytes::read_le(record.as_slice(), (20 + 8 * index) as usize, 8);
        let start: usize = (20 + 8 * count + 4096 * index) as usize;
        let block_data = slice_subrange(record.as_slice(), start, start + 4096);
        let ghost middle = device.contents();
        let ghost single = seq![entries[index as int]];
        proof {
            assert(block_data@ =~= entries[index as int].data);
            assert(single =~= seq![BlockWrite { address, data: block_data@ }]);
            assert(entries.take(index as int) + single =~= entries.take(index + 1));
            assert(entries.take(index + 1) + entries.skip(index + 1) =~= entries);
        }
        let written = block_io::write_block_to_device(device, address, block_data);
        proof {
            block_io::lemma_performed_joins(
                before,
                entries.take(index as int),
                middle,
                single,
                device.contents(),
                written is Ok,
            );
        }
        match written {
            Err(error) => {
                proof {
                    block_io::lemma_interrupted_extends(
                        before,
                        entries.take(index + 1),
                        device.contents(),
                        entries.skip(index + 1),
                    );
                }
                return Err(error);
            },
            Ok(_) => {
                proof {
                    block_io::lemma_apply_writes_len(before, entries.take(index + 1));
                }
            },
        }
        index = index + 1;
    }
    assert(entries.take(entries.len() as int) =~= entries);
    Ok(())
}

/// Carry out the record in the journal again, if it is complete and newer than
/// the superblock. Returns whether that was the case.
pub fn recover_journal_on_mount<D: BlockDevice>(
    device: &mut D,
    superblock: &mut BafsSuperblock,
) -> (result: Result<bool, BafsError>)
    ensures
        final(device).reliable() == old(device).reliable(),
        recovery_outcome(
            old(device).contents(),
            final(device).contents(),
            old(device).reliable(),
            *old(superblock),
            *final(superblock),
            result,
        ),
{
    let ghost before = device.contents();
    let ghost old_superblock = *superblock;
    let total: u64 = device.total_sector_count() / 8;
    let start: u64 = superblock.journal_start_block;
    let size: u64 = superblock.journal_size_in_blocks;
    if start > total || size > total - start {
        return Err(BafsError::InputOutputError);
    }
    let ghost journal = journal_area(before, old_superblock);
    proof {
        reveal(record_in_journal);
        bytes::lemma_byte_capacities();
    }
    if size == 0 {
        return Ok(false);
    }
    let head = match block_io::read_block_from_device(device, start) {
        Ok(head) => head,
        Err(error) => {
            return Err(error);
        },
    };
    proof {
        assert(head@ =~= journal.take(4096));
        lemma_field_of_prefix(journal, head@, 8, 8);
        lemma_field_of_prefix(journal, head@, 16, 4);
        assert(head@.subrange(0, 8) =~= journal.take(8));
    }
    if !bytes::bytes_equal(
        slice_subrange(head.as_slice(), 0, 8),
        JOURNAL_COMMIT_RECORD_MAGIC.as_slice(),
    ) {
        return Ok(false);
    }
    let transaction_id: u64 = bytes::read_le(head.as_slice(), 8, 8);
    if transaction_id <= superblock.last_committed_transaction_id {
        return Ok(false);
    }
    let count: u64 = bytes::read_le(head.as_slice(), 16, 4);
    let body_size: u64 = 24 + 8 * count + 4096 * count;
    let needed_blocks: u64 = (body_size + 3) / 4096 + 1;
    if needed_blocks > size {
        return Ok(false);
    }
    let record = match read_consecutive_blocks(device, start, needed_blocks) {
        Ok(record) => record,
        Err(error) => {
            return Err(error);
        },
    };
    let length: usize = record.len();
    proof {
        assert(record@ =~= journal.take(record@.len() as int));
        lemma_field_of_prefix(journal, record@, body_size as int, 4);
    }
    let stored_checksum: u64 = bytes::read_le(record.as_slice(), body_size as usize, 4);
    let body = slice_subrange(record.as_slice(), 0, body_size as usize);
    assert(body@ =~= journal.take(body_size as int));
    let computed_checksum: u32 = checksum::compute_crc32c(body);
    if stored_checksum != computed_checksum as u64 {
        return Ok(false);
    }
    let ghost found = CommitRecord {
        transaction_id,
        entries: Seq::new(count as nat, |i: int| entry_at(journal, count as nat, i)),
    };
    assert(pending_record(before, old_superblock) == Some(found));
    let mut limit: u64 = count;
    let mut recorded_image: Option<BafsSuperblock> = None;
    if count > 0 {
        proof {
            lemma_field_of_prefix(journal, record@, 20 + 8 * (count - 1), 8);
        }
        let address: u64 = bytes::read_le(
            record.as_slice(),
            (20 + 8 * (count - 1)) as usize,
            8,
        );
        if address == 1 {
            let place: usize = (20 + 8 * count + 4096 * (count - 1)) as usize;
            let image = slice_subrange(record.as_slice(), place, place + 4096);
            assert(image@ =~= found.entries.last().data);
            match superblock::validate_superblock_block(image, 1) {
                Ok(recorded) => {
                    recorded_image = Some(recorded);
                    limit = count - 1;
                },
                Err(_) => {},
            }
        }
    }
    let ghost entries = recorded_blocks(found);
    let ghost sealed = recovered_superblock(old_superblock, found);
    let ghost last = superblock::superblock_writes(sealed);
    proof {
        assert(entries =~= Seq::new(limit as nat, |i: int| entry_at(journal, count as nat, i)));
        lemma_parts_on_disk(before, entries, Seq::empty(), last);
        assert(entries + Seq::empty() + last =~= entries + last);
        lemma_superblock_writes_on_disk(before, sealed);
    }
    match replay_record(device, &record, count, limit, Ghost(journal), Ghost(entries)) {
        Err(error) => {
            proof {
                block_io::lemma_interrupted_extends(before, entries, device.contents(), last);
            }
            return Err(error);
        },
        Ok(_) => {},
    }
    let ghost replayed = device.contents();
    proof {
        block_io::lemma_apply_writes_len(before, entries);
    }
    match recorded_image {
        Some(recorded) => {
            *superblock = recorded;
        },
        None => {},
    }
    superblock.last_committed_transaction_id = transaction_id;
    let written = superblock::write_superblock_to_device(device, superblock);
    proof {
        block_io::lemma_performed_joins(
            before,
            entries,
            replayed,
            last,
            device.contents(),
            written is Ok,
        );
    }
    match written {
        Err(error) => Err(error),
        Ok(_) => Ok(true),
    }
}

} // verus!
