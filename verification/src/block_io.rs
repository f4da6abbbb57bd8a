//! Reading and writing whole blocks of a device.

use vstd::prelude::*;
use vstd::slice::slice_subrange;
use crate::block_device;
use crate::block_device::BlockDevice;
use crate::bytes;
use crate::error::BafsError;

verus! {

/// Whether the block at `address` lies on a device that holds `disk`.
pub open spec fn block_on_disk(disk: Seq<u8>, address: u64) -> bool {
    (address + 1) * 4096 <= disk.len()
}

/// The block at `address` of a device that holds `disk`.
pub open spec fn disk_block(disk: Seq<u8>, address: u64) -> Seq<u8> {
    disk.subrange(address * 4096, (address + 1) * 4096)
}

/// The device's contents once `data` was written to the block at `address`.
pub open spec fn write_block(disk: Seq<u8>, address: u64, data: Seq<u8>) -> Seq<u8> {
    block_device::overwrite(disk, address * 4096, data)
}

/// A block that is to be written to an address.
pub struct BlockWrite {
    pub address: u64,
    pub data: Seq<u8>,
}

/// Every write lies on the device and has the size of a block.
pub open spec fn writes_on_disk(disk: Seq<u8>, writes: Seq<BlockWrite>) -> bool {
    forall|i: int|
        0 <= i < writes.len() ==> block_on_disk(disk, (#[trigger] writes[i]).address)
            && writes[i].data.len() == 4096
}

/// The device's contents after all of the writes, in order.
pub open spec fn apply_writes(disk: Seq<u8>, writes: Seq<BlockWrite>) -> Seq<u8>
    decreases writes.len(),
{
    if writes.len() == 0 {
        disk
    } else {
        write_block(
            apply_writes(disk, writes.drop_last()),
            writes.last().address,
            writes.last().data,
        )
    }
}

/// The writes up to the one at `at` were carried out, and that one failed: its
/// block can hold anything, and no later write was attempted.
pub open spec fn interrupted_at(
    before: Seq<u8>,
    writes: Seq<BlockWrite>,
    after: Seq<u8>,
    at: int,
) -> bool {
    &&& 0 <= at < writes.len()
    &&& writes_on_disk(before, writes.take(at))
    &&& block_device::unchanged_outside(
        apply_writes(before, writes.take(at)),
        after,
        writes[at].address * 4096,
        (writes[at].address + 1) * 4096,
    )
}

/// One of the writes failed after those before it were carried out.
pub open spec fn interrupted(before: Seq<u8>, writes: Seq<BlockWrite>, after: Seq<u8>) -> bool {
    exists|at: int| #[trigger] interrupted_at(before, writes, after, at)
}

/// The outcome of a sequence of writes.
pub open spec fn performed(
    before: Seq<u8>,
    writes: Seq<BlockWrite>,
    after: Seq<u8>,
    complete: bool,
) -> bool {
    if complete {
        writes_on_disk(before, writes) && after == apply_writes(before, writes)
    } else {
        interrupted(before, writes, after)
    }
}

/// The block at an address is made of the 4096 bytes from 4096 times the address on,
/// and a write to it changes those bytes and no others.
pub proof fn law_block_holds_its_bytes(disk: Seq<u8>, address: u64, data: Seq<u8>, position: int)
    requires
        (address + 1) * 4096 <= disk.len(),
        data.len() == 4096,
        0 <= position < disk.len(),
    ensures
        block_on_disk(disk, address),
        disk_block(disk, address).len() == 4096,
        write_block(disk, address, data).len() == disk.len(),
        if address * 4096 <= position < (address + 1) * 4096 {
            &&& disk_block(disk, address)[position - address * 4096] == disk[position]
            &&& write_block(disk, address, data)[position] == data[position - address * 4096]
        } else {
            write_block(disk, address, data)[position] == disk[position]
        },
{
}

pub proof fn lemma_write_block(disk: Seq<u8>, address: u64, data: Seq<u8>)
    requires
        block_on_disk(disk, address),
        data.len() == 4096,
    ensures
        write_block(disk, address, data).len() == disk.len(),
        disk_block(write_block(disk, address, data), address) == data,
        forall|other: u64|
            other != address && block_on_disk(disk, other) ==> #[trigger] disk_block(
                write_block(disk, address, data),
                other,
            ) == disk_block(disk, other),
{
    let after = write_block(disk, address, data);
    assert(disk_block(after, address) =~= data);
    assert forall|other: u64|
        other != address && block_on_disk(disk, other) implies #[trigger] disk_block(after, other)
        == disk_block(disk, other) by {
        assert(disk_block(after, other) =~= disk_block(disk, other));
    }
}

pub proof fn lemma_apply_writes_len(disk: Seq<u8>, writes: Seq<BlockWrite>)
    requires
        writes_on_disk(disk, writes),
    ensures
        apply_writes(disk, writes).len() == disk.len(),
    decreases writes.len(),
{
    if writes.len() > 0 {
        assert(writes_on_disk(disk, writes.drop_last())) by {
            assert forall|i: int| 0 <= i < writes.drop_last().len() implies block_on_disk(
                disk,
                (#[trigger] writes.drop_last()[i]).address,
            ) && writes.drop_last()[i].data.len() == 4096 by {
                assert(writes.drop_last()[i] == writes[i]);
            }
        }
        lemma_apply_writes_len(disk, writes.drop_last());
        let last = writes[writes.len() - 1];
        lemma_write_block(
            apply_writes(disk, writes.drop_last()),
            last.address,
            last.data,
        );
    }
}

pub proof fn lemma_apply_writes_joins(
    disk: Seq<u8>,
    first: Seq<BlockWrite>,
    second: Seq<BlockWrite>,
)
    ensures
        apply_writes(disk, first + second) == apply_writes(apply_writes(disk, first), second),
    decreases second.len(),
{
    if second.len() == 0 {
        assert(first + second =~= first);
    } else {
        assert((first + second).drop_last() =~= first + second.drop_last());
        lemma_apply_writes_joins(disk, first, second.drop_last());
    }
}

/// Writes that follow writes that were carried out.
pub proof fn lemma_performed_joins(
    start: Seq<u8>,
    first: Seq<BlockWrite>,
    middle: Seq<u8>,
    second: Seq<BlockWrite>,
    end: Seq<u8>,
    complete: bool,
)
    requires
        performed(start, first, middle, true),
        performed(middle, second, end, complete),
    ensures
        performed(start, first + second, end, complete),
{
    let both = first + second;
    lemma_apply_writes_len(start, first);
    if complete {
        assert(writes_on_disk(start, both)) by {
            assert forall|i: int| 0 <= i < both.len() implies block_on_disk(
                start,
                (#[trigger] both[i]).address,
            ) && both[i].data.len() == 4096 by {
                if i < first.len() {
                    assert(both[i] == first[i]);
                } else {
                    assert(both[i] == second[i - first.len()]);
                }
            }
        }
        lemma_apply_writes_joins(start, first, second);
    } else {
        let at = choose|at: int| #[trigger] interrupted_at(middle, second, end, at);
        let joined = first.len() + at;
        assert(both.take(joined) =~= first + second.take(at));
        assert(both[joined] == second[at]);
        lemma_apply_writes_joins(start, first, second.take(at));
        assert(writes_on_disk(start, both.take(joined))) by {
            assert forall|i: int| 0 <= i < joined implies block_on_disk(
                start,
                (#[trigger] both.take(joined)[i]).address,
            ) && both.take(joined)[i].data.len() == 4096 by {
                if i < first.len() {
                    assert(both.take(joined)[i] == first[i]);
                } else {
                    assert(both.take(joined)[i] == second.take(at)[i - first.len()]);
                }
            }
        }
        assert(interrupted_at(start, both, end, joined));
    }
}

/// Writes that were never attempted change nothing about an interruption.
pub proof fn lemma_interrupted_extends(
    start: Seq<u8>,
    first: Seq<BlockWrite>,
    end: Seq<u8>,
    second: Seq<BlockWrite>,
)
    requires
        interrupted(start, first, end),
    ensures
        interrupted(start, first + second, end),
{
    let at = choose|at: int| #[trigger] interrupted_at(start, first, end, at);
    assert((first + second).take(at) =~= first.take(at));
    assert(interrupted_at(start, first + second, end, at));
}

/// What the last of the writes to `address` wrote there, if any did.
pub open spec fn last_write(writes: Seq<BlockWrite>, address: u64) -> Option<Seq<u8>>
    decreases writes.len(),
{
    if writes.len() == 0 {
        None
    } else if writes.last().address == address {
        Some(writes.last().data)
    } else {
        last_write(writes.drop_last(), address)
    }
}

/// The block at `address` once the writes are carried out.
pub open spec fn block_after(disk: Seq<u8>, writes: Seq<BlockWrite>, address: u64) -> Seq<u8> {
    match last_write(writes, address) {
        Some(data) => data,
        None => disk_block(disk, address),
    }
}

pub proof fn lemma_block_after(disk: Seq<u8>, writes: Seq<BlockWrite>, address: u64)
    requires
        writes_on_disk(disk, writes),
        block_on_disk(disk, address),
    ensures
        disk_block(apply_writes(disk, writes), address) == block_after(disk, writes, address),
    decreases writes.len(),
{
    if writes.len() > 0 {
        let shorter = writes.drop_last();
        assert(writes_on_disk(disk, shorter)) by {
            assert forall|i: int| 0 <= i < shorter.len() implies block_on_disk(
                disk,
                (#[trigger] shorter[i]).address,
            ) && shorter[i].data.len() == 4096 by {
                assert(shorter[i] == writes[i]);
            }
        }
        lemma_block_after(disk, shorter, address);
        lemma_apply_writes_len(disk, shorter);
        let last = writes[writes.len() - 1];
        lemma_write_block(apply_writes(disk, shorter), last.address, last.data);
    }
}

pub proof fn lemma_last_write_joins(
    first: Seq<BlockWrite>,
    second: Seq<BlockWrite>,
    address: u64,
)
    ensures
        last_write(first + second, address) == match last_write(second, address) {
            Some(data) => Some(data),
            None => last_write(first, address),
        },
    decreases second.len(),
{
    if second.len() == 0 {
        assert(first + second =~= first);
    } else {
        assert((first + second).drop_last() =~= first + second.drop_last());
        lemma_last_write_joins(first, second.drop_last(), address);
    }
}

pub proof fn lemma_no_write(writes: Seq<BlockWrite>, address: u64)
    requires
        forall|i: int| 0 <= i < writes.len() ==> (#[trigger] writes[i]).address != address,
    ensures
        last_write(writes, address) is None,
    decreases writes.len(),
{
    if writes.len() > 0 {
        assert(writes[writes.len() - 1].address != address);
        assert forall|i: int| 0 <= i < writes.drop_last().len() implies (#[trigger] writes.drop_last()[i]).address
            != address by {
            assert(writes.drop_last()[i] == writes[i]);
        }
        lemma_no_write(writes.drop_last(), address);
    }
}

/// The only write to an address is the last one to it.
pub proof fn lemma_single_write(writes: Seq<BlockWrite>, at: int)
    requires
        0 <= at < writes.len(),
        forall|i: int|
            at < i < writes.len() ==> (#[trigger] writes[i]).address != writes[at].address,
    ensures
        last_write(writes, writes[at].address) == Some(writes[at].data),
    decreases writes.len(),
{
    if at < writes.len() - 1 {
        assert(writes[writes.len() - 1].address != writes[at].address);
        let shorter = writes.drop_last();
        assert forall|i: int| at < i < shorter.len() implies (#[trigger] shorter[i]).address
            != shorter[at].address by {
            assert(shorter[i] == writes[i]);
        }
        lemma_single_write(shorter, at);
    }
}

/// After an interruption every block but the one that failed holds what the
/// writes before left there.
pub proof fn lemma_block_after_interruption(
    before: Seq<u8>,
    writes: Seq<BlockWrite>,
    after: Seq<u8>,
    at: int,
    address: u64,
)
    requires
        interrupted_at(before, writes, after, at),
        address != writes[at].address,
        block_on_disk(before, address),
    ensures
        after.len() == before.len(),
        disk_block(after, address) == block_after(before, writes.take(at), address),
{
    let middle = apply_writes(before, writes.take(at));
    lemma_apply_writes_len(before, writes.take(at));
    lemma_block_after(before, writes.take(at), address);
    assert(disk_block(after, address) =~= disk_block(middle, address));
}

/// Read a block from the device.
pub fn read_block_from_device<D: BlockDevice>(device: &D, block_address: u64) -> (result: Result<
    Vec<u8>,
    BafsError,
>)
    ensures
        match result {
            Ok(block) => block_on_disk(device.contents(), block_address) && block@ == disk_block(
                device.contents(),
                block_address,
            ) && block@.len() == 4096,
            Err(error) => error == BafsError::InputOutputError && !(device.reliable()
                && block_on_disk(device.contents(), block_address)),
        },
{
    let total: u64 = device.total_sector_count();
    if block_address >= total / 8 {
        return Err(BafsError::InputOutputError);
    }
    let mut buffer = bytes::zeroed_buffer(4096);
    if !device.read_sectors(block_address * 8, 8, buffer.as_mut_slice()) {
        return Err(BafsError::InputOutputError);
    }
    assert(buffer@ =~= disk_block(device.contents(), block_address));
    Ok(buffer)
}

/// Write a block to the device.
pub fn write_block_to_device<D: BlockDevice>(
    device: &mut D,
    block_address: u64,
    block_data: &[u8],
) -> (result: Result<(), BafsError>)
    requires
        block_data@.len() == 4096,
    ensures
        final(device).reliable() == old(device).reliable(),
        match result {
            Ok(_) => block_on_disk(old(device).contents(), block_address)
                && final(device).contents() == write_block(
                old(device).contents(),
                block_address,
                block_data@,
            ),
            Err(error) => error == BafsError::InputOutputError && !(old(device).reliable()
                && block_on_disk(old(device).contents(), block_address)),
        },
        performed(
            old(device).contents(),
            seq![BlockWrite { address: block_address, data: block_data@ }],
            final(device).contents(),
            result is Ok,
        ),
{
    let ghost writes = seq![BlockWrite { address: block_address, data: block_data@ }];
    let ghost before = device.contents();
    let total: u64 = device.total_sector_count();
    assert(writes.take(0) =~= Seq::empty());
    if block_address >= total / 8 {
        assert(interrupted_at(before, writes, device.contents(), 0));
        return Err(BafsError::InputOutputError);
    }
    assert(block_data@.take(4096) =~= block_data@);
    assert(writes.drop_last() =~= Seq::empty());
    if !device.write_sectors(block_address * 8, 8, block_data) {
        assert(interrupted_at(before, writes, device.contents(), 0));
        return Err(BafsError::InputOutputError);
    }
    assert(apply_writes(before, writes) == write_block(before, block_address, block_data@)) by {
        reveal_with_fuel(apply_writes, 2);
    }
    Ok(())
}

/// The block at `index` of a byte string that is written in blocks, the last one
/// padded with zeros.
pub open spec fn block_of(data: Seq<u8>, index: int) -> Seq<u8> {
    Seq::new(
        4096,
        |i: int|
            if 4096 * index + i < data.len() {
                data[4096 * index + i]
            } else {
                0u8
            },
    )
}

/// The number of blocks that `length` bytes take.
pub open spec fn blocks_for(length: nat) -> nat {
    (length + 4095) / 4096
}

/// The block at `index` of `data`, padded with zeros.
pub fn block_at(data: &[u8], index: usize) -> (block_data: Vec<u8>)
    requires
        4096 * index < data@.len(),
    ensures
        block_data@ == block_of(data@, index as int),
        block_data@.len() == 4096,
{
    let length: usize = data.len();
    let start: usize = 4096 * index;
    let end: usize = if length - start < 4096 {
        length
    } else {
        start + 4096
    };
    let mut block_data: Vec<u8> = Vec::new();
    bytes::append_slice(&mut block_data, slice_subrange(data, start, end));
    let padding = bytes::zeroed_buffer(4096 - (end - start));
    bytes::append_slice(&mut block_data, padding.as_slice());
    assert(block_data@ =~= block_of(data@, index as int));
    block_data
}

} // verus!
