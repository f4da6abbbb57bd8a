//! The superblock: the filesystem's entry point, kept in two copies.
//!
//! ```text
//! offset  size  field
//!      0     8  magic number
//!      8     4  version
//!     12     4  block size in bytes
//!     16     8  total block count
//!     24     8  free block count
//!     32     8  allocated inode count
//!     40     8  last committed transaction
//!     48     8  root inode number
//!     56     8  root of the inode tree
//!     64     8  root of the free-extent tree
//!     72     8  root of the checksum tree
//!     80     8  start of the journal
//!     88     8  size of the journal in blocks
//!     96    16  volume identifier
//!    112    32  volume label
//!    144     4  feature flags
//!    148     4  checksum algorithm
//!    152     8  next block for copy-on-write nodes
//!    160   348  reserved
//!    508     4  checksum of the bytes 0..508
//! ```

use vstd::prelude::*;
use vstd::slice::slice_subrange;
use crate::block_device::BlockDevice;
use crate::block_io;
use crate::block_io::BlockWrite;
use crate::bytes;
use crate::checksum;
use crate::error::BafsError;

verus! {

broadcast use crate::bytes::lemma_le_bytes_len;

/// The bytes `BAFS` and an escape character, which identify the filesystem.
pub const BAFS_MAGIC_NUMBER: [u8; 8] = [0x42, 0x41, 0x46, 0x53, 0x1B, 0x00, 0x00, 0x00];

/// The only version that is supported.
pub const BAFS_SUPPORTED_VERSION: u32 = 1;

/// Size of a block in bytes.
pub const BAFS_DEFAULT_BLOCK_SIZE_BYTES: u32 = 4096;

/// Size of a sector in bytes.
pub const BAFS_SECTOR_SIZE_BYTES: u32 = 512;

/// Number of sectors in a block.
pub const BAFS_SECTORS_PER_BLOCK: u32 = 8;

/// Block of the primary superblock.
pub const BAFS_PRIMARY_SUPERBLOCK_BLOCK_ADDRESS: u64 = 1;

/// Block of the backup superblock.
pub const BAFS_BACKUP_SUPERBLOCK_BLOCK_ADDRESS: u64 = 2;

/// First block of the journal.
pub const BAFS_JOURNAL_START_BLOCK_ADDRESS: u64 = 3;

/// Least size of the journal in blocks.
pub const BAFS_JOURNAL_SIZE_MIN_BLOCKS: u64 = 256;

/// Greatest size of the journal in blocks.
pub const BAFS_JOURNAL_SIZE_MAX_BLOCKS: u64 = 16_384;

/// Identifies CRC32C as the checksum algorithm.
pub const BAFS_CHECKSUM_ALGORITHM_CRC32C: u32 = 0;

/// Inode number of the root directory.
pub const BAFS_ROOT_INODE_NUMBER: u64 = 1;

/// Object id of the items of the free-extent tree.
pub const BAFS_FREE_EXTENT_OBJECT_ID: u64 = 0xFFFF_FFFF_FFFF_FFFE;

/// Object id of the items of the checksum tree.
pub const BAFS_CHECKSUM_OBJECT_ID: u64 = 0xFFFF_FFFF_FFFF_FFFD;

/// One percent of the disk, but at least 1 MiB and at most 64 MiB, in blocks.
pub open spec fn journal_size(total_block_count: u64) -> u64 {
    let one_percent = total_block_count / 100;
    if one_percent < 256 {
        256
    } else if one_percent > 16_384 {
        16_384
    } else {
        one_percent
    }
}

/// The first block behind the journal.
pub open spec fn data_area_start(total_block_count: u64) -> u64 {
    (3 + journal_size(total_block_count)) as u64
}

/// Size of the journal of a disk with `total_block_count` blocks, in blocks.
pub fn compute_journal_size_in_blocks(total_block_count: u64) -> (size: u64)
    ensures
        size == journal_size(total_block_count),
        256 <= size <= 16_384,
{
    let one_percent: u64 = total_block_count / 100;
    if one_percent < BAFS_JOURNAL_SIZE_MIN_BLOCKS {
        BAFS_JOURNAL_SIZE_MIN_BLOCKS
    } else if one_percent > BAFS_JOURNAL_SIZE_MAX_BLOCKS {
        BAFS_JOURNAL_SIZE_MAX_BLOCKS
    } else {
        one_percent
    }
}

/// The first block of the data area, which begins right behind the journal.
pub fn compute_data_area_start_block(total_block_count: u64) -> (start: u64)
    ensures
        start == data_area_start(total_block_count),
        start == 3 + journal_size(total_block_count),
{
    BAFS_JOURNAL_START_BLOCK_ADDRESS + compute_journal_size_in_blocks(total_block_count)
}

/// The superblock.
#[derive(Clone, Copy)]
pub struct BafsSuperblock {
    /// Identifies the filesystem.
    pub magic_number: [u8; 8],
    /// Format version.
    pub version: u32,
    /// Block size in bytes.
    pub block_size_in_bytes: u32,
    /// Number of blocks, all areas included.
    pub total_block_count: u64,
    /// Approximate number of free blocks.
    pub free_block_count: u64,
    /// Number of inodes that were ever allocated; the next one's number follows.
    pub allocated_inode_count: u64,
    /// The last transaction that was committed.
    pub last_committed_transaction_id: u64,
    /// Inode number of the root directory.
    pub root_inode_number: u64,
    /// Root of the tree of inodes, directory entries and file extents.
    pub inode_tree_root_block: u64,
    /// Root of the tree of free extents.
    pub free_extent_tree_root_block: u64,
    /// Root of the tree of data block checksums.
    pub checksum_tree_root_block: u64,
    /// First block of the journal.
    pub journal_start_block: u64,
    /// Size of the journal in blocks.
    pub journal_size_in_blocks: u64,
    /// Identifies the volume.
    pub volume_uuid: [u64; 2],
    /// A label in UTF-8, padded with zeros.
    pub volume_label: [u64; 4],
    /// Optional features; none are defined.
    pub feature_flags: u32,
    /// The checksum algorithm.
    pub checksum_algorithm: u32,
    /// The next block for copy-on-write tree nodes. It only ever grows, and every
    /// commit saves it, so that a block that was written is never taken again.
    pub next_cow_block_address: u64,
    /// Reserved.
    pub reserved: [u8; 348],
    /// Checksum of all the other bytes.
    pub superblock_checksum: u32,
}

/// The encoding of a superblock, without its checksum.
pub open spec fn superblock_body(superblock: BafsSuperblock) -> Seq<u8> {
    superblock.magic_number@ + bytes::le_bytes(superblock.version as nat, 4) + bytes::le_bytes(
        superblock.block_size_in_bytes as nat,
        4,
    ) + bytes::le_bytes(superblock.total_block_count as nat, 8) + bytes::le_bytes(
        superblock.free_block_count as nat,
        8,
    ) + bytes::le_bytes(superblock.allocated_inode_count as nat, 8) + bytes::le_bytes(
        superblock.last_committed_transaction_id as nat,
        8,
    ) + bytes::le_bytes(superblock.root_inode_number as nat, 8) + bytes::le_bytes(
        superblock.inode_tree_root_block as nat,
        8,
    ) + bytes::le_bytes(superblock.free_extent_tree_root_block as nat, 8) + bytes::le_bytes(
        superblock.checksum_tree_root_block as nat,
        8,
    ) + bytes::le_bytes(superblock.journal_start_block as nat, 8) + bytes::le_bytes(
        superblock.journal_size_in_blocks as nat,
        8,
    ) + bytes::le_bytes(superblock.volume_uuid@[0] as nat, 8) + bytes::le_bytes(
        superblock.volume_uuid@[1] as nat,
        8,
    ) + bytes::le_bytes(superblock.volume_label@[0] as nat, 8) + bytes::le_bytes(
        superblock.volume_label@[1] as nat,
        8,
    ) + bytes::le_bytes(superblock.volume_label@[2] as nat, 8) + bytes::le_bytes(
        superblock.volume_label@[3] as nat,
        8,
    ) + bytes::le_bytes(superblock.feature_flags as nat, 4) + bytes::le_bytes(
        superblock.checksum_algorithm as nat,
        4,
    ) + bytes::le_bytes(superblock.next_cow_block_address as nat, 8) + superblock.reserved@
}

/// The encoding of a superblock.
pub open spec fn superblock_bytes(superblock: BafsSuperblock) -> Seq<u8> {
    superblock_body(superblock) + bytes::le_bytes(superblock.superblock_checksum as nat, 4)
}

/// The block that holds a superblock.
pub open spec fn superblock_block(superblock: BafsSuperblock) -> Seq<u8> {
    superblock_bytes(superblock) + bytes::zeros(3584)
}

/// The superblock with a checksum that matches its contents.
pub open spec fn sealed(superblock: BafsSuperblock) -> BafsSuperblock {
    BafsSuperblock { superblock_checksum: checksum::crc32c(superblock_body(superblock)), ..superblock }
}

/// The superblock that is encoded in `source`.
pub open spec fn superblock_from(source: Seq<u8>) -> BafsSuperblock {
    choose|superblock: BafsSuperblock| #[trigger] superblock_bytes(superblock) == source
}

/// Why the superblock found at `block_address` cannot be used, if it cannot.
pub open spec fn superblock_error(superblock: BafsSuperblock, block_address: u64) -> Option<
    BafsError,
> {
    if superblock.magic_number@ != BAFS_MAGIC_NUMBER@ {
        Some(BafsError::InvalidMagicNumber)
    } else if superblock.version != 1 {
        Some(BafsError::UnsupportedVersion { found_version: superblock.version })
    } else if superblock.superblock_checksum != checksum::crc32c(superblock_body(superblock)) {
        Some(BafsError::InvalidChecksum { block_address })
    } else {
        None
    }
}

/// A superblock can be used where it begins with the magic bytes, has version 1, and
/// ends with the checksum of what comes before; else the first of these that does not
/// hold is reported.
pub proof fn law_superblock_must_be_sound(superblock: BafsSuperblock, block_address: u64)
    ensures
        ({
            let encoded = superblock_bytes(superblock);
            let is_ours = encoded.take(8) == seq![0x42u8, 0x41, 0x46, 0x53, 0x1B, 0, 0, 0];
            let is_whole = encoded.skip(508) == bytes::le_bytes(
                checksum::crc32c(encoded.take(508)) as nat,
                4,
            );
            match superblock_error(superblock, block_address) {
                None => is_ours && superblock.version == 1 && is_whole,
                Some(BafsError::InvalidMagicNumber) => !is_ours,
                Some(BafsError::UnsupportedVersion { found_version }) => is_ours
                    && superblock.version != 1 && found_version == superblock.version,
                Some(BafsError::InvalidChecksum { block_address: address }) => is_ours
                    && superblock.version == 1 && !is_whole && address == block_address,
                Some(_) => false,
            }
        }),
{
    let encoded = superblock_bytes(superblock);
    let stored = superblock.superblock_checksum as nat;
    lemma_superblock_len(superblock);
    assert(encoded.take(8) =~= superblock.magic_number@);
    assert(encoded.take(508) =~= superblock_body(superblock));
    assert(encoded.skip(508) =~= bytes::le_bytes(stored, 4));
    assert(BAFS_MAGIC_NUMBER@ =~= seq![0x42u8, 0x41, 0x46, 0x53, 0x1B, 0, 0, 0]);
    if encoded.skip(508) == bytes::le_bytes(checksum::crc32c(encoded.take(508)) as nat, 4) {
        lemma_equal_field(stored, checksum::crc32c(encoded.take(508)) as nat, 4);
    }
}

/// The superblock in the block at `block_address`.
pub open spec fn superblock_at(disk: Seq<u8>, block_address: u64) -> Result<
    BafsSuperblock,
    BafsError,
> {
    if !block_io::block_on_disk(disk, block_address) {
        Err(BafsError::InputOutputError)
    } else {
        let superblock = superblock_from(block_io::disk_block(disk, block_address).take(512));
        match superblock_error(superblock, block_address) {
            Some(error) => Err(error),
            None => Ok(superblock),
        }
    }
}

/// What is written to store a superblock: the backup, and then the primary.
pub open spec fn superblock_writes(superblock: BafsSuperblock) -> Seq<BlockWrite> {
    seq![
        BlockWrite { address: 2, data: superblock_block(superblock) },
        BlockWrite { address: 1, data: superblock_block(superblock) },
    ]
}

/// A superblock is written twice, the backup first: so one of the two is whole at any
/// time. Each fills the start of its block, and the rest is zero.
pub proof fn law_backup_is_written_first(superblock: BafsSuperblock)
    ensures
        superblock_writes(superblock).len() == 2,
        superblock_writes(superblock)[0].address == 2,
        superblock_writes(superblock)[1].address == 1,
        forall|i: int|
            0 <= i < 2 ==> {
                let data = (#[trigger] superblock_writes(superblock)[i]).data;
                &&& data.take(512) == superblock_bytes(superblock)
                &&& data.skip(512) == bytes::zeros(3584)
            },
{
    let block = superblock_block(superblock);
    lemma_superblock_len(superblock);
    assert(block.skip(512) =~= bytes::zeros(3584));
}

pub proof fn lemma_superblock_len(superblock: BafsSuperblock)
    ensures
        superblock_body(superblock).len() == 508,
        superblock_bytes(superblock).len() == 512,
        superblock_block(superblock).len() == 4096,
        superblock_block(superblock).take(512) == superblock_bytes(superblock),
{
    assert(superblock_block(superblock).take(512) =~= superblock_bytes(superblock));
}

proof fn lemma_equal_field(left: nat, right: nat, count: nat)
    requires
        bytes::le_bytes(left, count) == bytes::le_bytes(right, count),
        count == 4 ==> left <= u32::MAX && right <= u32::MAX,
        count == 8 ==> left <= u64::MAX && right <= u64::MAX,
        count == 4 || count == 8,
    ensures
        left == right,
{
    bytes::lemma_byte_capacities();
    bytes::lemma_le_bytes_injective(left, right, count);
}

/// A superblock is determined by its encoding.
#[verifier::rlimit(60)]
pub proof fn lemma_superblock_injective(left: BafsSuperblock, right: BafsSuperblock)
    requires
        superblock_bytes(left) == superblock_bytes(right),
    ensures
        left == right,
{
    let a = superblock_bytes(left);
    let b = superblock_bytes(right);
    assert(left.magic_number@ =~= right.magic_number@) by {
        assert(a.subrange(0, 8) =~= left.magic_number@);
        assert(b.subrange(0, 8) =~= right.magic_number@);
    }
    assert(left.version == right.version) by {
        assert(a.subrange(8, 12) =~= bytes::le_bytes(left.version as nat, 4));
        assert(b.subrange(8, 12) =~= bytes::le_bytes(right.version as nat, 4));
        lemma_equal_field(left.version as nat, right.version as nat, 4);
    }
    assert(left.block_size_in_bytes == right.block_size_in_bytes) by {
        assert(a.subrange(12, 16) =~= bytes::le_bytes(left.block_size_in_bytes as nat, 4));
        assert(b.subrange(12, 16) =~= bytes::le_bytes(right.block_size_in_bytes as nat, 4));
        lemma_equal_field(left.block_size_in_bytes as nat, right.block_size_in_bytes as nat, 4);
    }
    assert(left.total_block_count == right.total_block_count) by {
        assert(a.subrange(16, 24) =~= bytes::le_bytes(left.total_block_count as nat, 8));
        assert(b.subrange(16, 24) =~= bytes::le_bytes(right.total_block_count as nat, 8));
        lemma_equal_field(left.total_block_count as nat, right.total_block_count as nat, 8);
    }
    assert(left.free_block_count == right.free_block_count) by {
        assert(a.subrange(24, 32) =~= bytes::le_bytes(left.free_block_count as nat, 8));
        assert(b.subrange(24, 32) =~= bytes::le_bytes(right.free_block_count as nat, 8));
        lemma_equal_field(left.free_block_count as nat, right.free_block_count as nat, 8);
    }
    assert(left.allocated_inode_count == right.allocated_inode_count) by {
        assert(a.subrange(32, 40) =~= bytes::le_bytes(left.allocated_inode_count as nat, 8));
        assert(b.subrange(32, 40) =~= bytes::le_bytes(right.allocated_inode_count as nat, 8));
        lemma_equal_field(left.allocated_inode_count as nat, right.allocated_inode_count as nat, 8);
    }
    assert(left.last_committed_transaction_id == right.last_committed_transaction_id) by {
        assert(a.subrange(40, 48) =~= bytes::le_bytes(left.last_committed_transaction_id as nat, 8));
        assert(b.subrange(40, 48) =~= bytes::le_bytes(right.last_committed_transaction_id as nat, 8));
        lemma_equal_field(left.last_committed_transaction_id as nat, right.last_committed_transaction_id as nat, 8);
    }
    assert(left.root_inode_number == right.root_inode_number) by {
        assert(a.subrange(48, 56) =~= bytes::le_bytes(left.root_inode_number as nat, 8));
        assert(b.subrange(48, 56) =~= bytes::le_bytes(right.root_inode_number as nat, 8));
        lemma_equal_field(left.root_inode_number as nat, right.root_inode_number as nat, 8);
    }
    assert(left.inode_tree_root_block == right.inode_tree_root_block) by {
        assert(a.subrange(56, 64) =~= bytes::le_bytes(left.inode_tree_root_block as nat, 8));
        assert(b.subrange(56, 64) =~= bytes::le_bytes(right.inode_tree_root_block as nat, 8));
        lemma_equal_field(left.inode_tree_root_block as nat, right.inode_tree_root_block as nat, 8);
    }
    assert(left.free_extent_tree_root_block == right.free_extent_tree_root_block) by {
        assert(a.subrange(64, 72) =~= bytes::le_bytes(left.free_extent_tree_root_block as nat, 8));
        assert(b.subrange(64, 72) =~= bytes::le_bytes(right.free_extent_tree_root_block as nat, 8));
        lemma_equal_field(left.free_extent_tree_root_block as nat, right.free_extent_tree_root_block as nat, 8);
    }
    assert(left.checksum_tree_root_block == right.checksum_tree_root_block) by {
        assert(a.subrange(72, 80) =~= bytes::le_bytes(left.checksum_tree_root_block as nat, 8));
        assert(b.subrange(72, 80) =~= bytes::le_bytes(right.checksum_tree_root_block as nat, 8));
        lemma_equal_field(left.checksum_tree_root_block as nat, right.checksum_tree_root_block as nat, 8);
    }
    assert(left.journal_start_block == right.journal_start_block) by {
        assert(a.subrange(80, 88) =~= bytes::le_bytes(left.journal_start_block as nat, 8));
        assert(b.subrange(80, 88) =~= bytes::le_bytes(right.journal_start_block as nat, 8));
        lemma_equal_field(left.journal_start_block as nat, right.journal_start_block as nat, 8);
    }
    assert(left.journal_size_in_blocks == right.journal_size_in_blocks) by {
        assert(a.subrange(88, 96) =~= bytes::le_bytes(left.journal_size_in_blocks as nat, 8));
        assert(b.subrange(88, 96) =~= bytes::le_bytes(right.journal_size_in_blocks as nat, 8));
        lemma_equal_field(left.journal_size_in_blocks as nat, right.journal_size_in_blocks as nat, 8);
    }
    assert(left.volume_uuid@[0] == right.volume_uuid@[0]) by {
        assert(a.subrange(96, 104) =~= bytes::le_bytes(left.volume_uuid@[0] as nat, 8));
        assert(b.subrange(96, 104) =~= bytes::le_bytes(right.volume_uuid@[0] as nat, 8));
        lemma_equal_field(left.volume_uuid@[0] as nat, right.volume_uuid@[0] as nat, 8);
    }
    assert(left.volume_uuid@[1] == right.volume_uuid@[1]) by {
        assert(a.subrange(104, 112) =~= bytes::le_bytes(left.volume_uuid@[1] as nat, 8));
        assert(b.subrange(104, 112) =~= bytes::le_bytes(right.volume_uuid@[1] as nat, 8));
        lemma_equal_field(left.volume_uuid@[1] as nat, right.volume_uuid@[1] as nat, 8);
    }
    assert(left.volume_label@[0] == right.volume_label@[0]) by {
        assert(a.subrange(112, 120) =~= bytes::le_bytes(left.volume_label@[0] as nat, 8));
        assert(b.subrange(112, 120) =~= bytes::le_bytes(right.volume_label@[0] as nat, 8));
        lemma_equal_field(left.volume_label@[0] as nat, right.volume_label@[0] as nat, 8);
    }
    assert(left.volume_label@[1] == right.volume_label@[1]) by {
        assert(a.subrange(120, 128) =~= bytes::le_bytes(left.volume_label@[1] as nat, 8));
        assert(b.subrange(120, 128) =~= bytes::le_bytes(right.volume_label@[1] as nat, 8));
        lemma_equal_field(left.volume_label@[1] as nat, right.volume_label@[1] as nat, 8);
    }
    assert(left.volume_label@[2] == right.volume_label@[2]) by {
        assert(a.subrange(128, 136) =~= bytes::le_bytes(left.volume_label@[2] as nat, 8));
        assert(b.subrange(128, 136) =~= bytes::le_bytes(right.volume_label@[2] as nat, 8));
        lemma_equal_field(left.volume_label@[2] as nat, right.volume_label@[2] as nat, 8);
    }
    assert(left.volume_label@[3] == right.volume_label@[3]) by {
        assert(a.subrange(136, 144) =~= bytes::le_bytes(left.volume_label@[3] as nat, 8));
        assert(b.subrange(136, 144) =~= bytes::le_bytes(right.volume_label@[3] as nat, 8));
        lemma_equal_field(left.volume_label@[3] as nat, right.volume_label@[3] as nat, 8);
    }
    assert(left.feature_flags == right.feature_flags) by {
        assert(a.subrange(144, 148) =~= bytes::le_bytes(left.feature_flags as nat, 4));
        assert(b.subrange(144, 148) =~= bytes::le_bytes(right.feature_flags as nat, 4));
        lemma_equal_field(left.feature_flags as nat, right.feature_flags as nat, 4);
    }
    assert(left.checksum_algorithm == right.checksum_algorithm) by {
        assert(a.subrange(148, 152) =~= bytes::le_bytes(left.checksum_algorithm as nat, 4));
        assert(b.subrange(148, 152) =~= bytes::le_bytes(right.checksum_algorithm as nat, 4));
        lemma_equal_field(left.checksum_algorithm as nat, right.checksum_algorithm as nat, 4);
    }
    assert(left.next_cow_block_address == right.next_cow_block_address) by {
        assert(a.subrange(152, 160) =~= bytes::le_bytes(left.next_cow_block_address as nat, 8));
        assert(b.subrange(152, 160) =~= bytes::le_bytes(right.next_cow_block_address as nat, 8));
        lemma_equal_field(left.next_cow_block_address as nat, right.next_cow_block_address as nat, 8);
    }
    assert(left.reserved@ =~= right.reserved@) by {
        assert(a.subrange(160, 508) =~= left.reserved@);
        assert(b.subrange(160, 508) =~= right.reserved@);
    }
    assert(left.superblock_checksum == right.superblock_checksum) by {
        assert(a.subrange(508, 512) =~= bytes::le_bytes(left.superblock_checksum as nat, 4));
        assert(b.subrange(508, 512) =~= bytes::le_bytes(right.superblock_checksum as nat, 4));
        lemma_equal_field(left.superblock_checksum as nat, right.superblock_checksum as nat, 4);
    }
    assert(left.magic_number =~= right.magic_number);
    assert(left.volume_uuid@ =~= right.volume_uuid@);
    assert(left.volume_uuid =~= right.volume_uuid);
    assert(left.volume_label@ =~= right.volume_label@);
    assert(left.volume_label =~= right.volume_label);
    assert(left.reserved =~= right.reserved);
}

/// Reading back an encoded superblock gives the superblock.
pub proof fn law_superblock_round_trip(superblock: BafsSuperblock)
    ensures
        superblock_from(superblock_bytes(superblock)) == superblock,
{
    let found = superblock_from(superblock_bytes(superblock));
    assert(superblock_bytes(found) == superblock_bytes(superblock));
    lemma_superblock_injective(found, superblock);
}

fn superblock_body_to_bytes(superblock: &BafsSuperblock) -> (output: Vec<u8>)
    ensures
        output@ == superblock_body(*superblock),
{
    let mut output: Vec<u8> = Vec::new();
    bytes::append_slice(&mut output, superblock.magic_number.as_slice());
    bytes::append_le(&mut output, superblock.version as u64, 4);
    bytes::append_le(&mut output, superblock.block_size_in_bytes as u64, 4);
    bytes::append_le(&mut output, superblock.total_block_count, 8);
    bytes::append_le(&mut output, superblock.free_block_count, 8);
    bytes::append_le(&mut output, superblock.allocated_inode_count, 8);
    bytes::append_le(&mut output, superblock.last_committed_transaction_id, 8);
    bytes::append_le(&mut output, superblock.root_inode_number, 8);
    bytes::append_le(&mut output, superblock.inode_tree_root_block, 8);
    bytes::append_le(&mut output, superblock.free_extent_tree_root_block, 8);
    bytes::append_le(&mut output, superblock.checksum_tree_root_block, 8);
    bytes::append_le(&mut output, superblock.journal_start_block, 8);
    bytes::append_le(&mut output, superblock.journal_size_in_blocks, 8);
    bytes::append_le(&mut output, superblock.volume_uuid[0], 8);
    bytes::append_le(&mut output, superblock.volume_uuid[1], 8);
    bytes::append_le(&mut output, superblock.volume_label[0], 8);
    bytes::append_le(&mut output, superblock.volume_label[1], 8);
    bytes::append_le(&mut output, superblock.volume_label[2], 8);
    bytes::append_le(&mut output, superblock.volume_label[3], 8);
    bytes::append_le(&mut output, superblock.feature_flags as u64, 4);
    bytes::append_le(&mut output, superblock.checksum_algorithm as u64, 4);
    bytes::append_le(&mut output, superblock.next_cow_block_address, 8);
    bytes::append_slice(&mut output, superblock.reserved.as_slice());
    assert(output@ =~= superblock_body(*superblock));
    output
}

impl BafsSuperblock {
    /// The checksum that belongs to this superblock's contents.
    pub fn compute_checksum(&self) -> (checksum: u32)
        ensures
            checksum == checksum::crc32c(superblock_body(*self)),
    {
        let body = superblock_body_to_bytes(self);
        checksum::compute_crc32c(body.as_slice())
    }

    /// Set the checksum so that it matches the contents.
    pub fn seal_with_checksum(&mut self)
        ensures
            *final(self) == sealed(*old(self)),
    {
        self.superblock_checksum = self.compute_checksum();
    }

    /// Whether the checksum matches the contents.
    pub fn verify_checksum(&self) -> (matches: bool)
        ensures
            matches == (self.superblock_checksum == checksum::crc32c(superblock_body(*self))),
    {
        let body = superblock_body_to_bytes(self);
        checksum::verify_crc32c(body.as_slice(), self.superblock_checksum)
    }
}

/// The encoding of a superblock.
pub fn serialise_superblock_to_bytes(superblock: &BafsSuperblock) -> (output: [u8; 512])
    ensures
        output@ == superblock_bytes(*superblock),
{
    let mut output = superblock_body_to_bytes(superblock);
    bytes::append_le(&mut output, superblock.superblock_checksum as u64, 4);
    proof {
        lemma_superblock_len(*superblock);
        assert(output@.take(512) =~= superblock_bytes(*superblock));
    }
    bytes::to_array(output.as_slice())
}

/// The superblock that is encoded in `source`. Nothing about it is checked.
#[verifier::rlimit(60)]
pub fn deserialise_superblock_from_bytes(source: &[u8; 512]) -> (superblock: BafsSuperblock)
    ensures
        superblock_bytes(superblock) == source@,
        superblock == superblock_from(source@),
{
    let source: &[u8] = source.as_slice();
    proof {
        bytes::lemma_byte_capacities();
    }
    let magic_number: [u8; 8] = bytes::to_array(slice_subrange(source, 0, 8));
    let version: u32 = bytes::read_le(source, 8, 4) as u32;
    let block_size_in_bytes: u32 = bytes::read_le(source, 12, 4) as u32;
    let total_block_count: u64 = bytes::read_le(source, 16, 8);
    let free_block_count: u64 = bytes::read_le(source, 24, 8);
    let allocated_inode_count: u64 = bytes::read_le(source, 32, 8);
    let last_committed_transaction_id: u64 = bytes::read_le(source, 40, 8);
    let root_inode_number: u64 = bytes::read_le(source, 48, 8);
    let inode_tree_root_block: u64 = bytes::read_le(source, 56, 8);
    let free_extent_tree_root_block: u64 = bytes::read_le(source, 64, 8);
    let checksum_tree_root_block: u64 = bytes::read_le(source, 72, 8);
    let journal_start_block: u64 = bytes::read_le(source, 80, 8);
    let journal_size_in_blocks: u64 = bytes::read_le(source, 88, 8);
    let volume_uuid_0: u64 = bytes::read_le(source, 96, 8);
    let volume_uuid_1: u64 = bytes::read_le(source, 104, 8);
    let volume_label_0: u64 = bytes::read_le(source, 112, 8);
    let volume_label_1: u64 = bytes::read_le(source, 120, 8);
    let volume_label_2: u64 = bytes::read_le(source, 128, 8);
    let volume_label_3: u64 = bytes::read_le(source, 136, 8);
    let feature_flags: u32 = bytes::read_le(source, 144, 4) as u32;
    let checksum_algorithm: u32 = bytes::read_le(source, 148, 4) as u32;
    let next_cow_block_address: u64 = bytes::read_le(source, 152, 8);
    let reserved: [u8; 348] = bytes::to_array(slice_subrange(source, 160, 508));
    let superblock_checksum: u32 = bytes::read_le(source, 508, 4) as u32;
    let superblock = BafsSuperblock {
        magic_number,
        version,
        block_size_in_bytes,
        total_block_count,
        free_block_count,
        allocated_inode_count,
        last_committed_transaction_id,
        root_inode_number,
        inode_tree_root_block,
        free_extent_tree_root_block,
        checksum_tree_root_block,
        journal_start_block,
        journal_size_in_blocks,
        volume_uuid: [volume_uuid_0, volume_uuid_1],
        volume_label: [volume_label_0, volume_label_1, volume_label_2, volume_label_3],
        feature_flags,
        checksum_algorithm,
        next_cow_block_address,
        reserved,
        superblock_checksum,
    };
    proof {
        assert(magic_number@ =~= source@.subrange(0, 8));
        bytes::lemma_le_bytes_of_value(source@.subrange(8, 12));
        bytes::lemma_adjacent(source@, 8, 12);
        bytes::lemma_le_bytes_of_value(source@.subrange(12, 16));
        bytes::lemma_adjacent(source@, 12, 16);
        bytes::lemma_le_bytes_of_value(source@.subrange(16, 24));
        bytes::lemma_adjacent(source@, 16, 24);
        bytes::lemma_le_bytes_of_value(source@.subrange(24, 32));
        bytes::lemma_adjacent(source@, 24, 32);
        bytes::lemma_le_bytes_of_value(source@.subrange(32, 40));
        bytes::lemma_adjacent(source@, 32, 40);
        bytes::lemma_le_bytes_of_value(source@.subrange(40, 48));
        bytes::lemma_adjacent(source@, 40, 48);
        bytes::lemma_le_bytes_of_value(source@.subrange(48, 56));
        bytes::lemma_adjacent(source@, 48, 56);
        bytes::lemma_le_bytes_of_value(source@.subrange(56, 64));
        bytes::lemma_adjacent(source@, 56, 64);
        bytes::lemma_le_bytes_of_value(source@.subrange(64, 72));
        bytes::lemma_adjacent(source@, 64, 72);
        bytes::lemma_le_bytes_of_value(source@.subrange(72, 80));
        bytes::lemma_adjacent(source@, 72, 80);
        bytes::lemma_le_bytes_of_value(source@.subrange(80, 88));
        bytes::lemma_adjacent(source@, 80, 88);
        bytes::lemma_le_bytes_of_value(source@.subrange(88, 96));
        bytes::lemma_adjacent(source@, 88, 96);
        bytes::lemma_le_bytes_of_value(source@.subrange(96, 104));
        bytes::lemma_adjacent(source@, 96, 104);
        bytes::lemma_le_bytes_of_value(source@.subrange(104, 112));
        bytes::lemma_adjacent(source@, 104, 112);
        bytes::lemma_le_bytes_of_value(source@.subrange(112, 120));
        bytes::lemma_adjacent(source@, 112, 120);
        bytes::lemma_le_bytes_of_value(source@.subrange(120, 128));
        bytes::lemma_adjacent(source@, 120, 128);
        bytes::lemma_le_bytes_of_value(source@.subrange(128, 136));
        bytes::lemma_adjacent(source@, 128, 136);
        bytes::lemma_le_bytes_of_value(source@.subrange(136, 144));
        bytes::lemma_adjacent(source@, 136, 144);
        bytes::lemma_le_bytes_of_value(source@.subrange(144, 148));
        bytes::lemma_adjacent(source@, 144, 148);
        bytes::lemma_le_bytes_of_value(source@.subrange(148, 152));
        bytes::lemma_adjacent(source@, 148, 152);
        bytes::lemma_le_bytes_of_value(source@.subrange(152, 160));
        bytes::lemma_adjacent(source@, 152, 160);
        assert(reserved@ =~= source@.subrange(160, 508));
        bytes::lemma_adjacent(source@, 160, 508);
        bytes::lemma_le_bytes_of_value(source@.subrange(508, 512));
        bytes::lemma_adjacent(source@, 508, 512);
        assert(source@.subrange(0, 512) =~= source@);
        assert(superblock_bytes(superblock) == source@);
        law_superblock_round_trip(superblock);
    }
    superblock
}

/// Check the superblock in a block that was read from `block_address`.
pub fn validate_superblock_block(block_data: &[u8], block_address: u64) -> (result: Result<
    BafsSuperblock,
    BafsError,
>)
    requires
        block_data@.len() == 4096,
    ensures
        result == match superblock_error(superblock_from(block_data@.take(512)), block_address) {
            Some(error) => Err::<BafsSuperblock, BafsError>(error),
            None => Ok::<BafsSuperblock, BafsError>(superblock_from(block_data@.take(512))),
        },
{
    let array: [u8; 512] = bytes::to_array(block_data);
    let superblock = deserialise_superblock_from_bytes(&array);
    if !bytes::bytes_equal(superblock.magic_number.as_slice(), BAFS_MAGIC_NUMBER.as_slice()) {
        return Err(BafsError::InvalidMagicNumber);
    }
    if superblock.version != BAFS_SUPPORTED_VERSION {
        return Err(BafsError::UnsupportedVersion { found_version: superblock.version });
    }
    if !superblock.verify_checksum() {
        return Err(BafsError::InvalidChecksum { block_address });
    }
    Ok(superblock)
}

/// Read the superblock in the block at `block_address`, and check its magic
/// number, its version and its checksum.
pub fn read_superblock_from_device<D: BlockDevice>(
    device: &D,
    block_address: u64,
) -> (result: Result<BafsSuperblock, BafsError>)
    ensures
        result == superblock_at(device.contents(), block_address) || result == Err::<
            BafsSuperblock,
            BafsError,
        >(BafsError::InputOutputError) && !device.reliable(),
{
    match block_io::read_block_from_device(device, block_address) {
        Ok(block_data) => validate_superblock_block(block_data.as_slice(), block_address),
        Err(error) => Err(error),
    }
}

/// The block that holds a superblock.
pub fn superblock_to_block(superblock: &BafsSuperblock) -> (block_data: Vec<u8>)
    ensures
        block_data@ == superblock_block(*superblock),
        block_data@.len() == 4096,
{
    proof {
        lemma_superblock_len(*superblock);
    }
    let mut block_data = superblock_body_to_bytes(superblock);
    bytes::append_le(&mut block_data, superblock.superblock_checksum as u64, 4);
    let padding = bytes::zeroed_buffer(3584);
    bytes::append_slice(&mut block_data, padding.as_slice());
    assert(block_data@ =~= superblock_block(*superblock));
    block_data
}

/// Set the superblock's checksum and write it to the backup block and then to
/// the primary block, so that one valid copy survives whatever happens in
/// between.
pub fn write_superblock_to_device<D: BlockDevice>(
    device: &mut D,
    superblock: &mut BafsSuperblock,
) -> (result: Result<(), BafsError>)
    ensures
        *final(superblock) == sealed(*old(superblock)),
        final(device).reliable() == old(device).reliable(),
        block_io::performed(
            old(device).contents(),
            superblock_writes(sealed(*old(superblock))),
            final(device).contents(),
            result is Ok,
        ),
        result matches Err(error) ==> error == BafsError::InputOutputError,
        old(device).reliable() && old(device).contents().len() >= 3 * 4096 ==> result is Ok,
{
    superblock.seal_with_checksum();
    let block_data = superblock_to_block(superblock);
    let ghost before = device.contents();
    let ghost first = seq![BlockWrite { address: 2, data: block_data@ }];
    let ghost second = seq![BlockWrite { address: 1, data: block_data@ }];
    assert(first + second =~= superblock_writes(*superblock));
    match block_io::write_block_to_device(
        device,
        BAFS_BACKUP_SUPERBLOCK_BLOCK_ADDRESS,
        block_data.as_slice(),
    ) {
        Err(error) => {
            proof {
                block_io::lemma_interrupted_extends(before, first, device.contents(), second);
            }
            return Err(error);
        },
        Ok(_) => {},
    }
    let ghost middle = device.contents();
    proof {
        block_io::lemma_write_block(before, 2, block_data@);
    }
    let result = block_io::write_block_to_device(
        device,
        BAFS_PRIMARY_SUPERBLOCK_BLOCK_ADDRESS,
        block_data.as_slice(),
    );
    proof {
        block_io::lemma_performed_joins(
            before,
            first,
            middle,
            second,
            device.contents(),
            result is Ok,
        );
    }
    result
}

/// A superblock that was stored is found again in both places.
pub proof fn law_stored_superblock_is_found(disk: Seq<u8>, superblock: BafsSuperblock)
    requires
        disk.len() >= 3 * 4096,
        superblock.magic_number@ == BAFS_MAGIC_NUMBER@,
        superblock.version == 1,
    ensures
        ({
            let stored = sealed(superblock);
            let after = block_io::apply_writes(disk, superblock_writes(stored));
            &&& superblock_at(after, 1) == Ok::<BafsSuperblock, BafsError>(stored)
            &&& superblock_at(after, 2) == Ok::<BafsSuperblock, BafsError>(stored)
        }),
{
    let stored = sealed(superblock);
    let block_data = superblock_block(stored);
    let middle = block_io::write_block(disk, 2, block_data);
    let after = block_io::apply_writes(disk, superblock_writes(stored));
    lemma_superblock_len(stored);
    assert(after == block_io::write_block(middle, 1, block_data)) by {
        reveal_with_fuel(block_io::apply_writes, 3);
        let writes = superblock_writes(stored);
        assert(writes.drop_last().drop_last() =~= Seq::empty());
    }
    block_io::lemma_write_block(disk, 2, block_data);
    block_io::lemma_write_block(middle, 1, block_data);
    law_superblock_round_trip(stored);
    assert(block_io::disk_block(after, 2) == block_data);
}

/// A superblock with a single damaged byte is told apart from an intact one.
pub proof fn law_damaged_superblock_is_detected(
    superblock: BafsSuperblock,
    damaged: BafsSuperblock,
    position: int,
    block_address: u64,
)
    requires
        superblock_error(superblock, block_address) is None,
        0 <= position < 512,
        superblock_bytes(damaged)[position] != superblock_bytes(superblock)[position],
        forall|i: int|
            0 <= i < 512 && i != position ==> superblock_bytes(damaged)[i] == superblock_bytes(
                superblock,
            )[i],
    ensures
        superblock_error(damaged, block_address) is Some,
{
    lemma_superblock_len(superblock);
    lemma_superblock_len(damaged);
    let whole = superblock_bytes(superblock);
    let found = superblock_bytes(damaged);
    let body = superblock_body(superblock);
    let found_body = superblock_body(damaged);
    assert(body =~= whole.take(508));
    assert(found_body =~= found.take(508));
    if position < 508 {
        assert(whole.skip(508) =~= found.skip(508));
        assert(whole.skip(508) =~= bytes::le_bytes(superblock.superblock_checksum as nat, 4));
        assert(found.skip(508) =~= bytes::le_bytes(damaged.superblock_checksum as nat, 4));
        lemma_equal_field(
            superblock.superblock_checksum as nat,
            damaged.superblock_checksum as nat,
            4,
        );
        checksum::law_single_byte_change_is_detected(body, found_body, position);
    } else {
        assert(body =~= found_body);
        if damaged.superblock_checksum == superblock.superblock_checksum {
            assert(whole =~= found);
        }
    }
}

/// The journal takes one percent of the disk: at most that, rounded down, where it is
/// larger than the least size, and at least that where it is smaller than the greatest
/// size. A larger disk has no smaller journal.
pub proof fn law_journal_takes_one_percent(total_block_count: u64, larger: u64)
    requires
        total_block_count <= larger,
    ensures
        256 <= journal_size(total_block_count) <= 16_384,
        journal_size(total_block_count) > 256 ==> 100 * journal_size(total_block_count)
            <= total_block_count,
        journal_size(total_block_count) < 16_384 ==> total_block_count < 100 * (journal_size(
            total_block_count,
        ) + 1),
        journal_size(total_block_count) <= journal_size(larger),
        data_area_start(total_block_count) == 3 + journal_size(total_block_count),
{
}

} // verus!
