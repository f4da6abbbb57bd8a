//! Reading files and directories.

use vstd::prelude::*;
use crate::block_device::BlockDevice;
use crate::btree::model;
use crate::btree::store;
use crate::checksum_tree;
use crate::dir;
use crate::dir::{BafsDirEntry, EntryModel};
use crate::error::BafsError;
use crate::extent;
use crate::extent::BafsExtentData;
use super::{inode_in, volume_read_inode, BafsVolume, VolumeModel};

verus! {

/// The extent that holds the byte of a file at `offset`.
pub open spec fn extent_of(volume: VolumeModel, inode_number: u64, offset: u64) -> Result<
    BafsExtentData,
    BafsError,
> {
    match extent::extent_for_offset(
        volume.blocks(),
        volume.superblock.inode_tree_root_block,
        inode_number,
        offset,
    ) {
        Err(error) => Err(error),
        Ok(None) => Err(BafsError::CorruptedStructure),
        Ok(Some(extent)) => Ok(extent),
    }
}

/// The data block at `address`, if it passes the check against its checksum.
pub open spec fn data_block(volume: VolumeModel, address: int) -> Result<Seq<u8>, BafsError> {
    if address > u64::MAX {
        Err(BafsError::CorruptedStructure)
    } else if !volume.blocks().contains_key(address as u64) {
        Err(BafsError::InputOutputError)
    } else {
        match checksum_tree::check_of_record(
            model::tree_get(
                volume.blocks(),
                volume.superblock.checksum_tree_root_block,
                checksum_tree::checksum_key(address as u64),
            ),
            address as u64,
            volume.blocks()[address as u64],
        ) {
            Err(error) => Err(error),
            Ok(_) => Ok(volume.blocks()[address as u64]),
        }
    }
}

/// The bytes of a file from `from` up to `to`.
pub open spec fn read_span(volume: VolumeModel, inode_number: u64, from: int, to: int) -> Result<
    Seq<u8>,
    BafsError,
>
    decreases to - from,
{
    if from >= to {
        Ok(Seq::empty())
    } else {
        match extent_of(volume, inode_number, from as u64) {
            Err(error) => Err(error),
            Ok(extent) => {
                let within = from - extent.logical_byte_offset;
                let count = if to - from < 4096 - within % 4096 {
                    to - from
                } else {
                    4096 - within % 4096
                };
                match data_block(volume, extent.first_disk_block + within / 4096) {
                    Err(error) => Err(error),
                    Ok(block) => match read_span(volume, inode_number, from + count, to) {
                        Err(error) => Err(error),
                        Ok(rest) => Ok(
                            block.subrange(within % 4096, within % 4096 + count) + rest,
                        ),
                    },
                }
            },
        }
    }
}

/// The part of `data` from `at` on that a read of `length` bytes gives.
pub open spec fn part_of(data: Seq<u8>, at: u64, length: nat) -> Seq<u8> {
    if at >= data.len() {
        Seq::empty()
    } else if at + length < data.len() {
        data.subrange(at as int, at + length)
    } else {
        data.skip(at as int)
    }
}

/// What reading `length` bytes of a file at `offset` gives. It ends with the file.
pub open spec fn file_read(
    volume: VolumeModel,
    inode_number: u64,
    offset: u64,
    length: nat,
) -> Result<Seq<u8>, BafsError> {
    if length == 0 {
        Ok(Seq::empty())
    } else {
        match inode_in(volume, inode_number) {
            Err(error) => Err(error),
            Ok(inode) => if !inode.spec_is_regular_file() {
                Err(BafsError::NotARegularFile)
            } else if offset >= inode.file_size_in_bytes {
                Ok(Seq::empty())
            } else if offset + length < inode.file_size_in_bytes {
                read_span(volume, inode_number, offset as int, offset + length)
            } else {
                read_span(volume, inode_number, offset as int, inode.file_size_in_bytes as int)
            },
        }
    }
}

/// What is read in front of a span, and the span.
spec fn joined(front: Seq<u8>, rest: Result<Seq<u8>, BafsError>) -> Result<Seq<u8>, BafsError> {
    match rest {
        Err(error) => Err(error),
        Ok(rest) => Ok(front + rest),
    }
}

fn read_data_block<D: BlockDevice>(
    volume: &BafsVolume<D>,
    extent: &BafsExtentData,
    block_index: u64,
) -> (result: Result<Vec<u8>, BafsError>)
    requires
        store::cache_valid(volume.dirty_block_cache@),
    ensures
        match result {
            Ok(block) => data_block(volume@, extent.first_disk_block + block_index) == Ok::<
                Seq<u8>,
                BafsError,
            >(block@) && block@.len() == 4096,
            Err(error) => data_block(volume@, extent.first_disk_block + block_index) == Err::<
                Seq<u8>,
                BafsError,
            >(error) || error == BafsError::InputOutputError && !volume.device.reliable(),
        },
{
    if block_index > u64::MAX - extent.first_disk_block {
        return Err(BafsError::CorruptedStructure);
    }
    let block_address: u64 = extent.first_disk_block + block_index;
    match store::read_block(&volume.device, &volume.dirty_block_cache, block_address) {
        Err(error) => Err(error),
        Ok(block_data) => {
            match checksum_tree::verify_data_block_checksum(
                &volume.device,
                &volume.dirty_block_cache,
                volume.superblock.checksum_tree_root_block,
                block_address,
                block_data.as_slice(),
            ) {
                Err(error) => Err(error),
                Ok(_) => Ok(block_data),
            }
        },
    }
}

/// Read from a file, at `read_offset_bytes`, into the start of
/// `destination_buffer`. Returns how many bytes were read; they are fewer than
/// the buffer holds only where the file ends.
pub fn volume_read_file_data<D: BlockDevice>(
    volume: &BafsVolume<D>,
    file_inode_number: u64,
    read_offset_bytes: u64,
    destination_buffer: &mut [u8],
) -> (result: Result<usize, BafsError>)
    requires
        store::cache_valid(volume.dirty_block_cache@),
    ensures
        final(destination_buffer)@.len() == old(destination_buffer)@.len(),
        ({
            let expected = file_read(
                volume@,
                file_inode_number,
                read_offset_bytes,
                old(destination_buffer)@.len(),
            );
            match result {
                Ok(count) => {
                    &&& expected is Ok
                    &&& count == expected->Ok_0.len()
                    &&& final(destination_buffer)@ == expected->Ok_0 + old(
                        destination_buffer,
                    )@.skip(count as int)
                },
                Err(error) => expected == Err::<Seq<u8>, BafsError>(error) || error
                    == BafsError::InputOutputError && !volume.device.reliable(),
            }
        }),
{
    let length: usize = destination_buffer.len();
    if length == 0 {
        assert(destination_buffer@ =~= Seq::<u8>::empty() + old(destination_buffer)@.skip(0));
        return Ok(0);
    }
    let file_inode = match volume_read_inode(volume, file_inode_number) {
        Ok(file_inode) => file_inode,
        Err(error) => {
            return Err(error);
        },
    };
    if !file_inode.is_regular_file() {
        return Err(BafsError::NotARegularFile);
    }
    let file_size: u64 = file_inode.file_size_in_bytes;
    if read_offset_bytes >= file_size {
        assert(destination_buffer@ =~= Seq::<u8>::empty() + old(destination_buffer)@.skip(0));
        return Ok(0);
    }
    let bytes_available: u64 = file_size - read_offset_bytes;
    let bytes_to_read: usize = if (length as u64) < bytes_available {
        length
    } else {
        bytes_available as usize
    };
    let ghost expected = file_read(
        volume@,
        file_inode_number,
        read_offset_bytes,
        length as nat,
    );
    let ghost mut front: Seq<u8> = Seq::empty();
    let mut bytes_read_so_far: usize = 0;
    assert(joined(
        front,
        read_span(
            volume@,
            file_inode_number,
            read_offset_bytes as int,
            read_offset_bytes + bytes_to_read,
        ),
    ) == expected) by {
        if expected is Ok {
            assert(front + expected->Ok_0 =~= expected->Ok_0);
        }
    }
    while bytes_read_so_far < bytes_to_read
        invariant
            store::cache_valid(volume.dirty_block_cache@),
            bytes_read_so_far <= bytes_to_read <= length,
            read_offset_bytes + bytes_to_read <= u64::MAX,
            destination_buffer@.len() == length,
            old(destination_buffer)@.len() == length,
            front.len() == bytes_read_so_far,
            destination_buffer@ == front + old(destination_buffer)@.skip(
                bytes_read_so_far as int,
            ),
            expected == file_read(volume@, file_inode_number, read_offset_bytes, length as nat),
            joined(
                front,
                read_span(
                    volume@,
                    file_inode_number,
                    read_offset_bytes + bytes_read_so_far,
                    read_offset_bytes + bytes_to_read,
                ),
            ) == expected,
        decreases bytes_to_read - bytes_read_so_far,
    {
        let current_offset: u64 = read_offset_bytes + bytes_read_so_far as u64;
        let extent = match extent::read_extent_data_for_file_offset(
            &volume.device,
            &volume.dirty_block_cache,
            volume.superblock.inode_tree_root_block,
            file_inode_number,
            current_offset,
        ) {
            Ok(Some(extent)) => extent,
            Ok(None) => {
                return Err(BafsError::CorruptedStructure);
            },
            Err(error) => {
                return Err(error);
            },
        };
        proof {
            extent::lemma_found_extent_covers(
                volume@.blocks(),
                volume@.superblock.inode_tree_root_block,
                file_inode_number,
                current_offset,
            );
        }
        let offset_within_extent: u64 = current_offset - extent.logical_byte_offset;
        let offset_within_block: usize = (offset_within_extent % 4096) as usize;
        let block_data = match read_data_block(volume, &extent, offset_within_extent / 4096) {
            Ok(block_data) => block_data,
            Err(error) => {
                return Err(error);
            },
        };
        let bytes_wanted: usize = bytes_to_read - bytes_read_so_far;
        let bytes_to_copy: usize = if bytes_wanted < 4096 - offset_within_block {
            bytes_wanted
        } else {
            4096 - offset_within_block
        };
        let ghost piece = block_data@.subrange(
            offset_within_block as int,
            offset_within_block + bytes_to_copy,
        );
        copy_into(destination_buffer, bytes_read_so_far, block_data.as_slice(),
            offset_within_block, bytes_to_copy);
        proof {
            let rest = read_span(
                volume@,
                file_inode_number,
                current_offset + bytes_to_copy,
                read_offset_bytes + bytes_to_read,
            );
            assert(joined(front + piece, rest) == joined(front, joined(piece, rest))) by {
                if rest is Ok {
                    assert(front + piece + rest->Ok_0 =~= front + (piece + rest->Ok_0));
                }
            }
            front = front + piece;
            assert(destination_buffer@ =~= front + old(destination_buffer)@.skip(
                bytes_read_so_far + bytes_to_copy,
            ));
        }
        bytes_read_so_far = bytes_read_so_far + bytes_to_copy;
    }
    assert(front + Seq::<u8>::empty() =~= front);
    Ok(bytes_read_so_far)
}

fn copy_into(
    destination: &mut [u8],
    destination_offset: usize,
    source: &[u8],
    source_offset: usize,
    count: usize,
)
    requires
        destination_offset + count <= old(destination)@.len(),
        source_offset + count <= source@.len(),
    ensures
        final(destination)@ == old(destination)@.take(destination_offset as int)
            + source@.subrange(source_offset as int, source_offset + count) + old(
            destination,
        )@.skip(destination_offset + count),
{
    let destination_length: usize = destination.len();
    let source_length: usize = source.len();
    let mut index: usize = 0;
    while index < count
        invariant
            index <= count,
            destination@.len() == old(destination)@.len(),
            destination@.len() == destination_length,
            source@.len() == source_length,
            destination_offset + count <= destination_length,
            source_offset + count <= source_length,
            forall|i: int|
                destination_offset <= i < destination_offset + index ==> #[trigger] destination@[i]
                    == source@[source_offset + (i - destination_offset)],
            forall|i: int|
                0 <= i < destination@.len() && !(destination_offset <= i < destination_offset
                    + index) ==> destination@[i] == old(destination)@[i],
        decreases count - index,
    {
        destination[destination_offset + index] = source[source_offset + index];
        index = index + 1;
    }
    proof {
        let expected = old(destination)@.take(destination_offset as int) + source@.subrange(
            source_offset as int,
            source_offset + count,
        ) + old(destination)@.skip(destination_offset + count);
        assert(destination@ =~= expected);
    }
}

/// What looking up a name in a directory gives.
pub open spec fn lookup_in(
    volume: VolumeModel,
    directory_inode_number: u64,
    name: Seq<char>,
) -> Result<Option<u64>, BafsError> {
    match inode_in(volume, directory_inode_number) {
        Err(error) => Err(error),
        Ok(inode) => if !inode.spec_is_directory() {
            Err(BafsError::NotADirectory)
        } else {
            match entry_in_directory(volume, directory_inode_number, name) {
                Err(error) => Err(error),
                Ok(None) => Ok(None),
                Ok(Some(entry)) => Ok(Some(entry.child_inode_number)),
            }
        },
    }
}

/// The entry with the given name.
pub open spec fn entry_in_directory(
    volume: VolumeModel,
    directory_inode_number: u64,
    name: Seq<char>,
) -> Result<Option<EntryModel>, BafsError> {
    dir::entry_of_record(
        model::tree_get(
            volume.blocks(),
            volume.superblock.inode_tree_root_block,
            dir::entry_key(directory_inode_number, name),
        ),
        name,
    )
}

/// Look up a name in a directory. Returns the inode number that it stands for,
/// if it is there.
pub fn volume_lookup_directory_entry<D: BlockDevice>(
    volume: &BafsVolume<D>,
    directory_inode_number: u64,
    filename: &str,
) -> (result: Result<Option<u64>, BafsError>)
    requires
        store::cache_valid(volume.dirty_block_cache@),
    ensures
        result == lookup_in(volume@, directory_inode_number, filename@) || result == Err::<
            Option<u64>,
            BafsError,
        >(BafsError::InputOutputError) && !volume.device.reliable(),
{
    let directory_inode = match volume_read_inode(volume, directory_inode_number) {
        Ok(directory_inode) => directory_inode,
        Err(error) => {
            return Err(error);
        },
    };
    if !directory_inode.is_directory() {
        return Err(BafsError::NotADirectory);
    }
    match dir::directory_lookup_entry(
        &volume.device,
        &volume.dirty_block_cache,
        volume.superblock.inode_tree_root_block,
        directory_inode_number,
        filename,
    ) {
        Err(error) => Err(error),
        Ok(None) => Ok(None),
        Ok(Some(entry)) => Ok(Some(entry.child_inode_number)),
    }
}

/// The entry of a directory at `index`, in the order in which a directory keeps
/// its entries; none behind the last one.
pub fn volume_read_directory_entry_at_index<D: BlockDevice>(
    volume: &BafsVolume<D>,
    directory_inode_number: u64,
    index: usize,
) -> (result: Result<Option<BafsDirEntry>, BafsError>)
    requires
        store::cache_valid(volume.dirty_block_cache@),
    ensures
        ({
            let expected = dir::directory_entry_at(
                volume@.blocks(),
                volume@.superblock.inode_tree_root_block,
                directory_inode_number,
                index as int,
            );
            match result {
                Ok(entry) => expected == Ok::<Option<EntryModel>, BafsError>(
                    dir::optional_entry(entry),
                ),
                Err(error) => expected == Err::<Option<EntryModel>, BafsError>(error) || error
                    == BafsError::InputOutputError && !volume.device.reliable(),
            }
        }),
{
    dir::directory_iterate(
        &volume.device,
        &volume.dirty_block_cache,
        volume.superblock.inode_tree_root_block,
        directory_inode_number,
        index,
    )
}

} // verus!
