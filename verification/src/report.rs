//! What tools tell of a volume.

use vstd::prelude::*;
use crate::dir::{CHILD_TYPE_DIRECTORY, CHILD_TYPE_REGULAR_FILE};
use crate::superblock::BafsSuperblock;

verus! {

/// The sizes of a volume and its parts, in bytes.
#[derive(Clone, Copy, Debug)]
pub struct VolumeUsage {
    /// The whole volume.
    pub total_bytes: u64,
    /// What is free.
    pub free_bytes: u64,
    /// What is not free.
    pub used_bytes: u64,
    /// The journal.
    pub journal_bytes: u64,
}

/// The size of `block_count` blocks in bytes, if there is such a size.
pub open spec fn size_of_blocks(block_count: u64, block_size: u32) -> Option<u64> {
    if block_count * block_size > u64::MAX {
        None
    } else {
        Some((block_count * block_size) as u64)
    }
}

fn bytes_in_blocks(block_count: u64, block_size: u32) -> (size: Option<u64>)
    ensures
        size == size_of_blocks(block_count, block_size),
{
    block_count.checked_mul(block_size as u64)
}

/// The sizes that a superblock tells; none where one of them is beyond counting.
pub fn volume_usage(superblock: &BafsSuperblock) -> (usage: Option<VolumeUsage>)
    ensures
        ({
            let size = superblock.block_size_in_bytes;
            let total = size_of_blocks(superblock.total_block_count, size);
            let free = size_of_blocks(superblock.free_block_count, size);
            let journal = size_of_blocks(superblock.journal_size_in_blocks, size);
            match usage {
                Some(usage) => {
                    &&& total == Some(usage.total_bytes)
                    &&& free == Some(usage.free_bytes)
                    &&& journal == Some(usage.journal_bytes)
                    &&& usage.used_bytes == if usage.total_bytes < usage.free_bytes {
                        0
                    } else {
                        usage.total_bytes - usage.free_bytes
                    }
                },
                None => total is None || free is None || journal is None,
            }
        }),
{
    let block_size: u32 = superblock.block_size_in_bytes;
    let total = bytes_in_blocks(superblock.total_block_count, block_size);
    let free = bytes_in_blocks(superblock.free_block_count, block_size);
    let journal = bytes_in_blocks(superblock.journal_size_in_blocks, block_size);
    match (total, free, journal) {
        (Some(total_bytes), Some(free_bytes), Some(journal_bytes)) => {
            let used_bytes: u64 = if total_bytes < free_bytes {
                0
            } else {
                total_bytes - free_bytes
            };
            Some(VolumeUsage { total_bytes, free_bytes, used_bytes, journal_bytes })
        },
        _ => None,
    }
}

/// The character that stands for the kind of a directory entry in a listing.
pub fn type_character(child_type: u8) -> (character: char)
    ensures
        character == if child_type == CHILD_TYPE_DIRECTORY {
            'd'
        } else if child_type == CHILD_TYPE_REGULAR_FILE {
            '-'
        } else {
            '?'
        },
{
    if child_type == CHILD_TYPE_DIRECTORY {
        'd'
    } else if child_type == CHILD_TYPE_REGULAR_FILE {
        '-'
    } else {
        '?'
    }
}

/// Bytes that count up from zero, over and over: a pattern that is recognised.
pub open spec fn pattern(length: nat) -> Seq<u8> {
    Seq::new(length, |i: int| (i % 256) as u8)
}

/// A buffer that holds the pattern.
pub fn pattern_buffer(length: usize) -> (buffer: Vec<u8>)
    ensures
        buffer@ == pattern(length as nat),
{
    let mut buffer: Vec<u8> = Vec::new();
    let mut index: usize = 0;
    while index < length
        invariant
            index <= length,
            buffer@ == pattern(index as nat),
        decreases length - index,
    {
        buffer.push((index % 256) as u8);
        index = index + 1;
        assert(buffer@ =~= pattern(index as nat));
    }
    buffer
}

/// Whether `data` is the pattern.
pub fn is_pattern(data: &[u8]) -> (result: bool)
    ensures
        result == (data@ == pattern(data@.len())),
{
    let length: usize = data.len();
    let mut index: usize = 0;
    while index < length
        invariant
            index <= length,
            length == data@.len(),
            forall|i: int| 0 <= i < index ==> data@[i] == (i % 256) as u8,
        decreases length - index,
    {
        if data[index] != (index % 256) as u8 {
            assert(data@[index as int] != pattern(data@.len())[index as int]);
            return false;
        }
        index = index + 1;
    }
    assert(data@ =~= pattern(data@.len()));
    true
}

/// What is used and what is free is the whole, where no more is free than there is;
/// and sizes are whole blocks.
pub proof fn law_sizes_add_up(block_count: u64, more: u64, block_size: u32)
    requires
        block_count + more <= u64::MAX,
        size_of_blocks((block_count + more) as u64, block_size) is Some,
    ensures
        size_of_blocks(block_count, block_size) is Some,
        size_of_blocks(more, block_size) is Some,
        size_of_blocks(block_count, block_size)->Some_0 + size_of_blocks(more, block_size)->Some_0
            == size_of_blocks((block_count + more) as u64, block_size)->Some_0,
        size_of_blocks(1, block_size) == Some(block_size as u64),
{
    let total = (block_count + more) as u64;
    assert(total * block_size == block_count * block_size + more * block_size) by (nonlinear_arith)
        requires
            total == block_count + more,
    ;
    assert(block_count * block_size >= 0) by (nonlinear_arith);
    assert(more * block_size >= 0) by (nonlinear_arith);
}

/// Every size that can be counted in 64 bits is told.
pub proof fn law_size_is_told_where_it_can_be(block_count: u64, block_size: u32)
    ensures
        block_size == 0 || block_count <= 0xFFFF_FFFF_FFFF_FFFFint / block_size as int
            <==> size_of_blocks(block_count, block_size) is Some,
{
    if block_size > 0 {
        let most = 0xFFFF_FFFF_FFFF_FFFFint / block_size as int;
        assert(most * block_size <= 0xFFFF_FFFF_FFFF_FFFF < (most + 1) * block_size)
            by (nonlinear_arith)
            requires
                block_size > 0,
                most == 0xFFFF_FFFF_FFFF_FFFFint / block_size as int,
        ;
        assert(block_count <= most <==> block_count * block_size <= 0xFFFF_FFFF_FFFF_FFFF)
            by (nonlinear_arith)
            requires
                block_size > 0,
                most * block_size <= 0xFFFF_FFFF_FFFF_FFFF < (most + 1) * block_size,
        ;
    } else {
        assert(block_count * block_size == 0) by (nonlinear_arith)
            requires
                block_size == 0,
        ;
    }
}

/// The pattern counts up from zero, each byte by one, and begins anew after 256 bytes;
/// a longer pattern begins with a shorter one.
pub proof fn law_pattern_counts_up(length: nat, longer: nat, position: int)
    requires
        0 <= position < length <= longer,
    ensures
        pattern(length).len() == length,
        pattern(length)[0] == 0,
        pattern(longer)[position] == pattern(length)[position],
        position + 1 < length ==> pattern(length)[position + 1] == if pattern(length)[position]
            == 255 {
            0
        } else {
            pattern(length)[position] + 1
        },
{
}

} // verus!
