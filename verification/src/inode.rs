//! Inodes: the metadata records of files and directories.

use std::collections::BTreeMap;
use vstd::prelude::*;
use vstd::slice::slice_subrange;
use crate::block_device::BlockDevice;
use crate::btree::key::{BafsKey, ITEM_TYPE_INODE};
use crate::btree::model;
use crate::btree::store;
use crate::btree::tree;
use crate::bytes;
use crate::error::BafsError;

verus! {

broadcast use crate::bytes::lemma_le_bytes_len;

/// Mode bits of a regular file.
pub const INODE_MODE_REGULAR_FILE: u32 = 0o100000;

/// Mode bits of a directory.
pub const INODE_MODE_DIRECTORY: u32 = 0o040000;

/// Permissions of a new file, `rw-r--r--`.
pub const INODE_DEFAULT_FILE_PERMISSIONS: u32 = 0o644;

/// Permissions of a new directory, `rwxr-xr-x`.
pub const INODE_DEFAULT_DIRECTORY_PERMISSIONS: u32 = 0o755;

/// The metadata of a file or directory, 128 bytes on disk.
#[derive(Clone, Copy, Debug)]
pub struct BafsInode {
    /// Unique, and never used again.
    pub inode_number: u64,
    /// File size in bytes; zero for directories.
    pub file_size_in_bytes: u64,
    /// Number of blocks that hold the file's data.
    pub allocated_block_count: u64,
    /// The transaction that last changed the inode.
    pub generation: u64,
    /// Time of creation, in nanoseconds since the Unix epoch, as all times.
    pub creation_time_nanoseconds: u64,
    /// Time of the last change of the data.
    pub modification_time_nanoseconds: u64,
    /// Time of the last change of the metadata.
    pub status_change_time_nanoseconds: u64,
    /// Time of the last access.
    pub access_time_nanoseconds: u64,
    /// Type and permissions.
    pub posix_mode: u32,
    /// The owner.
    pub owner_uid: u32,
    /// The owner's group.
    pub owner_gid: u32,
    /// Number of names; a directory has one more, for itself.
    pub hard_link_count: u32,
    /// Flags.
    pub inode_flags: u32,
    /// Compression; always none.
    pub compression_algorithm: u32,
    /// Encryption key; always none.
    pub encryption_key_id: u64,
    /// Reserved.
    pub reserved: [u8; 32],
}

/// The encoding of an inode.
pub open spec fn inode_bytes(inode: BafsInode) -> Seq<u8> {
    bytes::le_bytes(inode.inode_number as nat, 8) + bytes::le_bytes(
        inode.file_size_in_bytes as nat,
        8,
    ) + bytes::le_bytes(inode.allocated_block_count as nat, 8) + bytes::le_bytes(
        inode.generation as nat,
        8,
    ) + bytes::le_bytes(inode.creation_time_nanoseconds as nat, 8) + bytes::le_bytes(
        inode.modification_time_nanoseconds as nat,
        8,
    ) + bytes::le_bytes(inode.status_change_time_nanoseconds as nat, 8) + bytes::le_bytes(
        inode.access_time_nanoseconds as nat,
        8,
    ) + bytes::le_bytes(inode.posix_mode as nat, 4) + bytes::le_bytes(inode.owner_uid as nat, 4)
        + bytes::le_bytes(inode.owner_gid as nat, 4) + bytes::le_bytes(
        inode.hard_link_count as nat,
        4,
    ) + bytes::le_bytes(inode.inode_flags as nat, 4) + bytes::le_bytes(
        inode.compression_algorithm as nat,
        4,
    ) + bytes::le_bytes(inode.encryption_key_id as nat, 8) + inode.reserved@
}

/// The inode that is encoded in `source`.
pub open spec fn inode_from(source: Seq<u8>) -> BafsInode {
    choose|inode: BafsInode| #[trigger] inode_bytes(inode) == source
}

/// The key of an inode's record.
pub open spec fn inode_key(inode_number: u64) -> BafsKey {
    BafsKey { object_id: inode_number, item_type: ITEM_TYPE_INODE, offset: 0 }
}

/// The inode in a record, or why there is none.
pub open spec fn inode_of_record(record: Result<Option<Seq<u8>>, BafsError>) -> Result<
    BafsInode,
    BafsError,
> {
    match record {
        Err(error) => Err(error),
        Ok(None) => Err(BafsError::NotFound),
        Ok(Some(value)) => if value.len() < 128 {
            Err(BafsError::CorruptedStructure)
        } else {
            Ok(inode_from(value.take(128)))
        },
    }
}

pub proof fn lemma_inode_len(inode: BafsInode)
    ensures
        inode_bytes(inode).len() == 128,
{
}

/// An inode is determined by its encoding.
#[verifier::rlimit(40)]
pub proof fn lemma_inode_injective(left: BafsInode, right: BafsInode)
    requires
        inode_bytes(left) == inode_bytes(right),
    ensures
        left == right,
{
    let a = inode_bytes(left);
    let b = inode_bytes(right);
    bytes::lemma_byte_capacities();
    assert(left.inode_number == right.inode_number) by {
        assert(a.subrange(0, 8) =~= bytes::le_bytes(left.inode_number as nat, 8));
        assert(b.subrange(0, 8) =~= bytes::le_bytes(right.inode_number as nat, 8));
        bytes::lemma_le_bytes_injective(left.inode_number as nat, right.inode_number as nat, 8);
    }
    assert(left.file_size_in_bytes == right.file_size_in_bytes) by {
        assert(a.subrange(8, 16) =~= bytes::le_bytes(left.file_size_in_bytes as nat, 8));
        assert(b.subrange(8, 16) =~= bytes::le_bytes(right.file_size_in_bytes as nat, 8));
        bytes::lemma_le_bytes_injective(left.file_size_in_bytes as nat, right.file_size_in_bytes as nat, 8);
    }
    assert(left.allocated_block_count == right.allocated_block_count) by {
        assert(a.subrange(16, 24) =~= bytes::le_bytes(left.allocated_block_count as nat, 8));
        assert(b.subrange(16, 24) =~= bytes::le_bytes(right.allocated_block_count as nat, 8));
        bytes::lemma_le_bytes_injective(left.allocated_block_count as nat, right.allocated_block_count as nat, 8);
    }
    assert(left.generation == right.generation) by {
        assert(a.subrange(24, 32) =~= bytes::le_bytes(left.generation as nat, 8));
        assert(b.subrange(24, 32) =~= bytes::le_bytes(right.generation as nat, 8));
        bytes::lemma_le_bytes_injective(left.generation as nat, right.generation as nat, 8);
    }
    assert(left.creation_time_nanoseconds == right.creation_time_nanoseconds) by {
        assert(a.subrange(32, 40) =~= bytes::le_bytes(left.creation_time_nanoseconds as nat, 8));
        assert(b.subrange(32, 40) =~= bytes::le_bytes(right.creation_time_nanoseconds as nat, 8));
        bytes::lemma_le_bytes_injective(left.creation_time_nanoseconds as nat, right.creation_time_nanoseconds as nat, 8);
    }
    assert(left.modification_time_nanoseconds == right.modification_time_nanoseconds) by {
        assert(a.subrange(40, 48) =~= bytes::le_bytes(left.modification_time_nanoseconds as nat, 8));
        assert(b.subrange(40, 48) =~= bytes::le_bytes(right.modification_time_nanoseconds as nat, 8));
        bytes::lemma_le_bytes_injective(left.modification_time_nanoseconds as nat, right.modification_time_nanoseconds as nat, 8);
    }
    assert(left.status_change_time_nanoseconds == right.status_change_time_nanoseconds) by {
        assert(a.subrange(48, 56) =~= bytes::le_bytes(left.status_change_time_nanoseconds as nat, 8));
        assert(b.subrange(48, 56) =~= bytes::le_bytes(right.status_change_time_nanoseconds as nat, 8));
        bytes::lemma_le_bytes_injective(left.status_change_time_nanoseconds as nat, right.status_change_time_nanoseconds as nat, 8);
    }
    assert(left.access_time_nanoseconds == right.access_time_nanoseconds) by {
        assert(a.subrange(56, 64) =~= bytes::le_bytes(left.access_time_nanoseconds as nat, 8));
        assert(b.subrange(56, 64) =~= bytes::le_bytes(right.access_time_nanoseconds as nat, 8));
        bytes::lemma_le_bytes_injective(left.access_time_nanoseconds as nat, right.access_time_nanoseconds as nat, 8);
    }
    assert(left.posix_mode == right.posix_mode) by {
        assert(a.subrange(64, 68) =~= bytes::le_bytes(left.posix_mode as nat, 4));
        assert(b.subrange(64, 68) =~= bytes::le_bytes(right.posix_mode as nat, 4));
        bytes::lemma_le_bytes_injective(left.posix_mode as nat, right.posix_mode as nat, 4);
    }
    assert(left.owner_uid == right.owner_uid) by {
        assert(a.subrange(68, 72) =~= bytes::le_bytes(left.owner_uid as nat, 4));
        assert(b.subrange(68, 72) =~= bytes::le_bytes(right.owner_uid as nat, 4));
        bytes::lemma_le_bytes_injective(left.owner_uid as nat, right.owner_uid as nat, 4);
    }
    assert(left.owner_gid == right.owner_gid) by {
        assert(a.subrange(72, 76) =~= bytes::le_bytes(left.owner_gid as nat, 4));
        assert(b.subrange(72, 76) =~= bytes::le_bytes(right.owner_gid as nat, 4));
        bytes::lemma_le_bytes_injective(left.owner_gid as nat, right.owner_gid as nat, 4);
    }
    assert(left.hard_link_count == right.hard_link_count) by {
        assert(a.subrange(76, 80) =~= bytes::le_bytes(left.hard_link_count as nat, 4));
        assert(b.subrange(76, 80) =~= bytes::le_bytes(right.hard_link_count as nat, 4));
        bytes::lemma_le_bytes_injective(left.hard_link_count as nat, right.hard_link_count as nat, 4);
    }
    assert(left.inode_flags == right.inode_flags) by {
        assert(a.subrange(80, 84) =~= bytes::le_bytes(left.inode_flags as nat, 4));
        assert(b.subrange(80, 84) =~= bytes::le_bytes(right.inode_flags as nat, 4));
        bytes::lemma_le_bytes_injective(left.inode_flags as nat, right.inode_flags as nat, 4);
    }
    assert(left.compression_algorithm == right.compression_algorithm) by {
        assert(a.subrange(84, 88) =~= bytes::le_bytes(left.compression_algorithm as nat, 4));
        assert(b.subrange(84, 88) =~= bytes::le_bytes(right.compression_algorithm as nat, 4));
        bytes::lemma_le_bytes_injective(left.compression_algorithm as nat, right.compression_algorithm as nat, 4);
    }
    assert(left.encryption_key_id == right.encryption_key_id) by {
        assert(a.subrange(88, 96) =~= bytes::le_bytes(left.encryption_key_id as nat, 8));
        assert(b.subrange(88, 96) =~= bytes::le_bytes(right.encryption_key_id as nat, 8));
        bytes::lemma_le_bytes_injective(left.encryption_key_id as nat, right.encryption_key_id as nat, 8);
    }
    assert(left.reserved@ =~= right.reserved@) by {
        assert(a.subrange(96, 128) =~= left.reserved@);
        assert(b.subrange(96, 128) =~= right.reserved@);
    }
    assert(left.reserved =~= right.reserved);
}

/// Reading back an encoded inode gives the inode.
pub proof fn law_inode_round_trip(inode: BafsInode)
    ensures
        inode_from(inode_bytes(inode)) == inode,
        inode_of_record(Ok(Some(inode_bytes(inode)))) == Ok::<BafsInode, BafsError>(inode),
{
    let found = inode_from(inode_bytes(inode));
    assert(inode_bytes(found) == inode_bytes(inode));
    lemma_inode_injective(found, inode);
    lemma_inode_len(inode);
    assert(inode_bytes(inode).take(128) =~= inode_bytes(inode));
}

/// A new inode with the given mode and link count.
pub open spec fn fresh_inode(
    inode_number: u64,
    generation: u64,
    timestamp_nanoseconds: u64,
    posix_mode: u32,
    hard_link_count: u32,
    inode: BafsInode,
) -> bool {
    &&& inode.inode_number == inode_number
    &&& inode.file_size_in_bytes == 0
    &&& inode.allocated_block_count == 0
    &&& inode.generation == generation
    &&& inode.creation_time_nanoseconds == timestamp_nanoseconds
    &&& inode.modification_time_nanoseconds == timestamp_nanoseconds
    &&& inode.status_change_time_nanoseconds == timestamp_nanoseconds
    &&& inode.access_time_nanoseconds == timestamp_nanoseconds
    &&& inode.posix_mode == posix_mode
    &&& inode.owner_uid == 0
    &&& inode.owner_gid == 0
    &&& inode.hard_link_count == hard_link_count
    &&& inode.inode_flags == 0
    &&& inode.compression_algorithm == 0
    &&& inode.encryption_key_id == 0
    &&& inode.reserved@ == bytes::zeros(32)
}

/// A new inode has its number and mode, belongs to the superuser, holds nothing, and
/// has the same time in all of its times.
pub proof fn law_fresh_inode_is_empty(
    inode_number: u64,
    generation: u64,
    timestamp_nanoseconds: u64,
    posix_mode: u32,
    hard_link_count: u32,
    inode: BafsInode,
)
    requires
        fresh_inode(
            inode_number,
            generation,
            timestamp_nanoseconds,
            posix_mode,
            hard_link_count,
            inode,
        ),
    ensures
        inode.inode_number == inode_number,
        inode.generation == generation,
        inode.posix_mode == posix_mode,
        inode.hard_link_count == hard_link_count,
        inode.creation_time_nanoseconds == timestamp_nanoseconds,
        inode.modification_time_nanoseconds == inode.creation_time_nanoseconds,
        inode.status_change_time_nanoseconds == inode.creation_time_nanoseconds,
        inode.access_time_nanoseconds == inode.creation_time_nanoseconds,
        inode.file_size_in_bytes == 0,
        inode.allocated_block_count == 0,
        inode.owner_uid == 0,
        inode.owner_gid == 0,
        inode_bytes(inode).skip(80) == bytes::zeros(48),
{
    reveal_with_fuel(bytes::le_bytes, 9);
    assert(inode_bytes(inode).skip(80) =~= bytes::zeros(48));
}

/// `value` records an inode with nothing in it yet and all its times zero.
pub open spec fn new_inode_record(
    value: Seq<u8>,
    inode_number: u64,
    generation: u64,
    posix_mode: u32,
    hard_link_count: u32,
) -> bool {
    &&& value == inode_bytes(inode_from(value))
    &&& fresh_inode(
        inode_number,
        generation,
        0,
        posix_mode,
        hard_link_count,
        inode_from(value),
    )
}

impl BafsInode {
    /// Whether the mode is that of a regular file.
    pub open spec fn spec_is_regular_file(self) -> bool {
        (self.posix_mode & 0o170000) == INODE_MODE_REGULAR_FILE
    }

    /// Whether the mode is that of a directory.
    pub open spec fn spec_is_directory(self) -> bool {
        (self.posix_mode & 0o170000) == INODE_MODE_DIRECTORY
    }

    /// The inode of a new, empty file.
    pub fn new_regular_file(
        inode_number: u64,
        generation: u64,
        timestamp_nanoseconds: u64,
    ) -> (inode: BafsInode)
        ensures
            fresh_inode(
                inode_number,
                generation,
                timestamp_nanoseconds,
                0o100644,
                1,
                inode,
            ),
            inode.spec_is_regular_file(),
            !inode.spec_is_directory(),
    {
        assert(0o100000u32 | 0o644u32 == 0o100644u32) by (bit_vector);
        assert(0o100644u32 & 0o170000u32 == 0o100000u32) by (bit_vector);
        let inode = BafsInode {
            inode_number,
            file_size_in_bytes: 0,
            allocated_block_count: 0,
            generation,
            creation_time_nanoseconds: timestamp_nanoseconds,
            modification_time_nanoseconds: timestamp_nanoseconds,
            status_change_time_nanoseconds: timestamp_nanoseconds,
            access_time_nanoseconds: timestamp_nanoseconds,
            posix_mode: INODE_MODE_REGULAR_FILE | INODE_DEFAULT_FILE_PERMISSIONS,
            owner_uid: 0,
            owner_gid: 0,
            hard_link_count: 1,
            inode_flags: 0,
            compression_algorithm: 0,
            encryption_key_id: 0,
            reserved: [0u8;32],
        };
        assert(inode.reserved@ =~= bytes::zeros(32));
        inode
    }

    /// The inode of a new, empty directory.
    pub fn new_directory(
        inode_number: u64,
        generation: u64,
        timestamp_nanoseconds: u64,
    ) -> (inode: BafsInode)
        ensures
            fresh_inode(
                inode_number,
                generation,
                timestamp_nanoseconds,
                0o040755,
                2,
                inode,
            ),
            inode.spec_is_directory(),
            !inode.spec_is_regular_file(),
    {
        assert(0o040000u32 | 0o755u32 == 0o040755u32) by (bit_vector);
        assert(0o040755u32 & 0o170000u32 == 0o040000u32) by (bit_vector);
        let inode = BafsInode {
            inode_number,
            file_size_in_bytes: 0,
            allocated_block_count: 0,
            generation,
            creation_time_nanoseconds: timestamp_nanoseconds,
            modification_time_nanoseconds: timestamp_nanoseconds,
            status_change_time_nanoseconds: timestamp_nanoseconds,
            access_time_nanoseconds: timestamp_nanoseconds,
            posix_mode: INODE_MODE_DIRECTORY | INODE_DEFAULT_DIRECTORY_PERMISSIONS,
            owner_uid: 0,
            owner_gid: 0,
            hard_link_count: 2,
            inode_flags: 0,
            compression_algorithm: 0,
            encryption_key_id: 0,
            reserved: [0u8;32],
        };
        assert(inode.reserved@ =~= bytes::zeros(32));
        inode
    }

    /// Whether this is the inode of a regular file.
    pub fn is_regular_file(&self) -> (result: bool)
        ensures
            result == self.spec_is_regular_file(),
    {
        (self.posix_mode & 0o170000) == INODE_MODE_REGULAR_FILE
    }

    /// Whether this is the inode of a directory.
    pub fn is_directory(&self) -> (result: bool)
        ensures
            result == self.spec_is_directory(),
    {
        (self.posix_mode & 0o170000) == INODE_MODE_DIRECTORY
    }
}

fn inode_to_vec(inode: &BafsInode) -> (output: Vec<u8>)
    ensures
        output@ == inode_bytes(*inode),
        output@.len() == 128,
{
    let mut output: Vec<u8> = Vec::new();
    bytes::append_le(&mut output, inode.inode_number, 8);
    bytes::append_le(&mut output, inode.file_size_in_bytes, 8);
    bytes::append_le(&mut output, inode.allocated_block_count, 8);
    bytes::append_le(&mut output, inode.generation, 8);
    bytes::append_le(&mut output, inode.creation_time_nanoseconds, 8);
    bytes::append_le(&mut output, inode.modification_time_nanoseconds, 8);
    bytes::append_le(&mut output, inode.status_change_time_nanoseconds, 8);
    bytes::append_le(&mut output, inode.access_time_nanoseconds, 8);
    bytes::append_le(&mut output, inode.posix_mode as u64, 4);
    bytes::append_le(&mut output, inode.owner_uid as u64, 4);
    bytes::append_le(&mut output, inode.owner_gid as u64, 4);
    bytes::append_le(&mut output, inode.hard_link_count as u64, 4);
    bytes::append_le(&mut output, inode.inode_flags as u64, 4);
    bytes::append_le(&mut output, inode.compression_algorithm as u64, 4);
    bytes::append_le(&mut output, inode.encryption_key_id, 8);
    bytes::append_slice(&mut output, inode.reserved.as_slice());
    assert(output@ =~= inode_bytes(*inode));
    output
}

/// The encoding of an inode.
pub fn serialise_inode_to_bytes(inode: &BafsInode) -> (output: [u8; 128])
    ensures
        output@ == inode_bytes(*inode),
{
    let output = inode_to_vec(inode);
    assert(output@.take(128) =~= output@);
    bytes::to_array(output.as_slice())
}

/// The inode that is encoded in the first 128 bytes of `source`.
#[verifier::rlimit(40)]
pub fn deserialise_inode_from_bytes(source: &[u8]) -> (inode: BafsInode)
    requires
        source@.len() >= 128,
    ensures
        inode_bytes(inode) == source@.take(128),
        inode == inode_from(source@.take(128)),
{
    proof {
        bytes::lemma_byte_capacities();
    }
    let inode_number: u64 = bytes::read_le(source, 0, 8);
    let file_size_in_bytes: u64 = bytes::read_le(source, 8, 8);
    let allocated_block_count: u64 = bytes::read_le(source, 16, 8);
    let generation: u64 = bytes::read_le(source, 24, 8);
    let creation_time_nanoseconds: u64 = bytes::read_le(source, 32, 8);
    let modification_time_nanoseconds: u64 = bytes::read_le(source, 40, 8);
    let status_change_time_nanoseconds: u64 = bytes::read_le(source, 48, 8);
    let access_time_nanoseconds: u64 = bytes::read_le(source, 56, 8);
    let posix_mode: u32 = bytes::read_le(source, 64, 4) as u32;
    let owner_uid: u32 = bytes::read_le(source, 68, 4) as u32;
    let owner_gid: u32 = bytes::read_le(source, 72, 4) as u32;
    let hard_link_count: u32 = bytes::read_le(source, 76, 4) as u32;
    let inode_flags: u32 = bytes::read_le(source, 80, 4) as u32;
    let compression_algorithm: u32 = bytes::read_le(source, 84, 4) as u32;
    let encryption_key_id: u64 = bytes::read_le(source, 88, 8);
    let reserved: [u8; 32] = bytes::to_array(slice_subrange(source, 96, 128));
    let inode = BafsInode {
        inode_number,
        file_size_in_bytes,
        allocated_block_count,
        generation,
        creation_time_nanoseconds,
        modification_time_nanoseconds,
        status_change_time_nanoseconds,
        access_time_nanoseconds,
        posix_mode,
        owner_uid,
        owner_gid,
        hard_link_count,
        inode_flags,
        compression_algorithm,
        encryption_key_id,
        reserved,
    };
    proof {
        bytes::lemma_le_bytes_of_value(source@.subrange(0, 8));
        bytes::lemma_le_bytes_of_value(source@.subrange(8, 16));
        bytes::lemma_adjacent(source@, 8, 16);
        bytes::lemma_le_bytes_of_value(source@.subrange(16, 24));
        bytes::lemma_adjacent(source@, 16, 24);
        bytes::lemma_le_bytes_of_value(source@.subrange(24, 32));
        bytes::lemma_adjacent(source@, 24, 32);
        bytes::lemma_le_bytes_of_value(source@.subrange(32, 40));
        bytes::lemma_adjacent(source@, 32, 40);
        bytes::lemma_le_bytes_of_value(source@.subrange(40, 48));
        bytes::lemma_adjacent(source@, 40, 48);
        bytes::lemma_le_bytes_of_value(source@.subrange(48, 56));
        bytes::lemma_adjacent(source@, 48, 56);
        bytes::lemma_le_bytes_of_value(source@.subrange(56, 64));
        bytes::lemma_adjacent(source@, 56, 64);
        bytes::lemma_le_bytes_of_value(source@.subrange(64, 68));
        bytes::lemma_adjacent(source@, 64, 68);
        bytes::lemma_le_bytes_of_value(source@.subrange(68, 72));
        bytes::lemma_adjacent(source@, 68, 72);
        bytes::lemma_le_bytes_of_value(source@.subrange(72, 76));
        bytes::lemma_adjacent(source@, 72, 76);
        bytes::lemma_le_bytes_of_value(source@.subrange(76, 80));
        bytes::lemma_adjacent(source@, 76, 80);
        bytes::lemma_le_bytes_of_value(source@.subrange(80, 84));
        bytes::lemma_adjacent(source@, 80, 84);
        bytes::lemma_le_bytes_of_value(source@.subrange(84, 88));
        bytes::lemma_adjacent(source@, 84, 88);
        bytes::lemma_le_bytes_of_value(source@.subrange(88, 96));
        bytes::lemma_adjacent(source@, 88, 96);
        assert(reserved@ =~= source@.subrange(96, 128));
        bytes::lemma_adjacent(source@, 96, 128);
        assert(source@.subrange(0, 128) =~= source@.take(128));
        assert(inode_bytes(inode) == source@.take(128));
        law_inode_round_trip(inode);
    }
    inode
}

/// Read an inode. Fails with `NotFound` where there is no such inode.
pub fn read_inode_from_tree<D: BlockDevice>(
    device: &D,
    dirty_cache: &BTreeMap<u64, Vec<u8>>,
    inode_tree_root_block: u64,
    inode_number: u64,
) -> (result: Result<BafsInode, BafsError>)
    requires
        store::cache_valid(dirty_cache@),
    ensures
        result == inode_of_record(
            model::tree_get(
                store::visible_blocks(device.contents(), dirty_cache@),
                inode_tree_root_block,
                inode_key(inode_number),
            ),
        ) || result == Err::<BafsInode, BafsError>(BafsError::InputOutputError)
            && !device.reliable(),
{
    let search_key = BafsKey::new(inode_number, ITEM_TYPE_INODE, 0);
    match tree::lookup_in_tree(device, dirty_cache, inode_tree_root_block, search_key) {
        Err(error) => Err(error),
        Ok(None) => Err(BafsError::NotFound),
        Ok(Some(value)) => {
            if value.len() < 128 {
                return Err(BafsError::CorruptedStructure);
            }
            Ok(deserialise_inode_from_bytes(value.as_slice()))
        },
    }
}

/// Store an inode's record. Returns the address of the tree's new root.
pub fn write_inode_to_tree<D: BlockDevice>(
    device: &D,
    dirty_cache: &mut BTreeMap<u64, Vec<u8>>,
    inode_tree_root_block: u64,
    inode: &BafsInode,
    generation: u64,
    next_free_block: &mut u64,
    freed_blocks: &mut Vec<u64>,
) -> (result: Result<u64, BafsError>)
    requires
        store::cache_valid(old(dirty_cache)@),
        *old(next_free_block) + 512 <= u64::MAX,
    ensures
        store::stamped(
            final(dirty_cache)@,
            *old(next_free_block) as int,
            *final(next_free_block) as int,
            generation,
        ),
        tree::insertion_outcome(
            device.contents(),
            old(dirty_cache)@,
            final(dirty_cache)@,
            device.reliable(),
            inode_tree_root_block,
            inode_key(inode.inode_number),
            inode_bytes(*inode),
            *old(next_free_block),
            *final(next_free_block),
            old(freed_blocks)@,
            final(freed_blocks)@,
            result,
        ),
{
    let key = BafsKey::new(inode.inode_number, ITEM_TYPE_INODE, 0);
    let value = inode_to_vec(inode);
    tree::insert_into_tree(
        device,
        dirty_cache,
        inode_tree_root_block,
        key,
        value,
        generation,
        next_free_block,
        freed_blocks,
    )
}

/// The number of the next inode, where `current_inode_count` were allocated.
pub fn allocate_next_inode_number(current_inode_count: u64) -> (inode_number: u64)
    requires
        current_inode_count < u64::MAX,
    ensures
        inode_number == current_inode_count + 1,
{
    current_inode_count + 1
}

} // verus!
