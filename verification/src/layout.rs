//! Where things lie on disk: which bytes of a structure denote which of its fields. All
//! numbers are little-endian.

use vstd::prelude::*;
use vstd::utf8;
use crate::btree::key::BafsKey;
use crate::btree::node;
use crate::btree::store;
use crate::bytes;
use crate::checksum;
use crate::checksum_tree;
use crate::dir;
use crate::error::BafsError;
use crate::extent;
use crate::inode;
use crate::inode::BafsInode;
use crate::journal;
use crate::superblock;
use crate::superblock::BafsSuperblock;

verus! {

broadcast use crate::bytes::lemma_le_bytes_len;

/// The number in two bytes.
pub open spec fn number2(source: Seq<u8>, at: int) -> int {
    source[at] + 0x100 * source[at + 1]
}

/// The number in four bytes.
pub open spec fn number4(source: Seq<u8>, at: int) -> int {
    number2(source, at) + 0x1_0000 * number2(source, at + 2)
}

/// The number in eight bytes.
pub open spec fn number8(source: Seq<u8>, at: int) -> int {
    number4(source, at) + 0x1_0000_0000 * number4(source, at + 4)
}

/// The key in 17 bytes.
pub open spec fn is_key(source: Seq<u8>, at: int, key: BafsKey) -> bool {
    &&& number8(source, at) == key.object_id
    &&& source[at + 8] == key.item_type
    &&& number8(source, at + 9) == key.offset
}

/// A number read from two bytes.
proof fn lemma_field2(source: Seq<u8>, at: int)
    requires
        0 <= at,
        at + 2 <= source.len(),
    ensures
        bytes::field(source, at, 2) == number2(source, at),
        number2(source, at) <= u16::MAX,
{
    reveal_with_fuel(bytes::le_value, 3);
    let part = source.subrange(at, at + 2);
    assert(part.drop_first().drop_first() =~= Seq::<u8>::empty());
}

/// The first half of a number is read before the second.
proof fn lemma_halves(source: Seq<u8>, at: int, half: int)
    requires
        0 <= at,
        half == 2 || half == 4,
        at + 2 * half <= source.len(),
    ensures
        bytes::field(source, at, 2 * half) == bytes::field(source, at, half)
            + bytes::byte_capacity(half as nat) * bytes::field(source, at + half, half),
{
    let first = source.subrange(at, at + half);
    let second = source.subrange(at + half, at + 2 * half);
    assert(source.subrange(at, at + 2 * half) =~= first + second);
    lemma_joined_value(first, second);
}

/// The value of adjacent digits.
proof fn lemma_joined_value(first: Seq<u8>, second: Seq<u8>)
    ensures
        bytes::le_value(first + second) == bytes::le_value(first) + bytes::byte_capacity(
            first.len(),
        ) * bytes::le_value(second),
    decreases first.len(),
{
    if first.len() == 0 {
        assert(first + second =~= second);
        assert(bytes::byte_capacity(0) == 1);
        assert(1 * bytes::le_value(second) == bytes::le_value(second));
    } else {
        let rest = first.drop_first();
        lemma_joined_value(rest, second);
        assert((first + second).drop_first() =~= rest + second);
        let capacity = bytes::byte_capacity(rest.len());
        let high = bytes::le_value(second);
        assert(256 * (bytes::le_value(rest) + capacity * high) == 256 * bytes::le_value(rest) + (256
            * capacity) * high) by (nonlinear_arith);
        assert(bytes::byte_capacity(first.len()) == 256 * capacity);
        assert((first + second)[0] == first[0]);
    }
}

/// A number read from four bytes.
proof fn lemma_field4(source: Seq<u8>, at: int)
    requires
        0 <= at,
        at + 4 <= source.len(),
    ensures
        bytes::field(source, at, 4) == number4(source, at),
        number4(source, at) <= u32::MAX,
{
    lemma_halves(source, at, 2);
    lemma_field2(source, at);
    lemma_field2(source, at + 2);
    reveal_with_fuel(bytes::byte_capacity, 3);
}

/// A number read from eight bytes.
pub proof fn lemma_field8(source: Seq<u8>, at: int)
    requires
        0 <= at,
        at + 8 <= source.len(),
    ensures
        bytes::field(source, at, 8) == number8(source, at),
        number8(source, at) <= u64::MAX,
{
    lemma_halves(source, at, 4);
    lemma_field4(source, at);
    lemma_field4(source, at + 4);
    reveal_with_fuel(bytes::byte_capacity, 5);
}

/// A number written to four bytes.
proof fn lemma_number4(source: Seq<u8>, at: int, value: nat)
    requires
        0 <= at,
        at + 4 <= source.len(),
        value <= u32::MAX,
        source.subrange(at, at + 4) == bytes::le_bytes(value, 4),
    ensures
        number4(source, at) == value,
{
    bytes::lemma_byte_capacities();
    bytes::lemma_field(source, at, 4, value);
    lemma_field4(source, at);
}

/// A number written to eight bytes.
proof fn lemma_number8(source: Seq<u8>, at: int, value: nat)
    requires
        0 <= at,
        at + 8 <= source.len(),
        value <= u64::MAX,
        source.subrange(at, at + 8) == bytes::le_bytes(value, 8),
    ensures
        number8(source, at) == value,
{
    bytes::lemma_byte_capacities();
    bytes::lemma_field(source, at, 8, value);
    lemma_field8(source, at);
}

/// The key that is read from 17 bytes is the one in them.
proof fn lemma_key(source: Seq<u8>, at: int)
    requires
        0 <= at,
        at + 17 <= source.len(),
    ensures
        is_key(source, at, node::key_at(source, at)),
{
    lemma_field8(source, at);
    lemma_field8(source, at + 9);
}

/// The fields of an inode, in 128 bytes.
#[verifier::spinoff_prover]
#[verifier::rlimit(60)]
pub proof fn law_inode_layout(found: BafsInode)
    ensures
        ({
            let encoded = inode::inode_bytes(found);
            &&& encoded.len() == 128
            &&& number8(encoded, 0) == found.inode_number
            &&& number8(encoded, 8) == found.file_size_in_bytes
            &&& number8(encoded, 16) == found.allocated_block_count
            &&& number8(encoded, 24) == found.generation
            &&& number8(encoded, 32) == found.creation_time_nanoseconds
            &&& number8(encoded, 40) == found.modification_time_nanoseconds
            &&& number8(encoded, 48) == found.status_change_time_nanoseconds
            &&& number8(encoded, 56) == found.access_time_nanoseconds
            &&& number4(encoded, 64) == found.posix_mode
            &&& number4(encoded, 68) == found.owner_uid
            &&& number4(encoded, 72) == found.owner_gid
            &&& number4(encoded, 76) == found.hard_link_count
            &&& number4(encoded, 80) == found.inode_flags
            &&& number4(encoded, 84) == found.compression_algorithm
            &&& number8(encoded, 88) == found.encryption_key_id
            &&& encoded.skip(96) == found.reserved@
        }),
{
    let encoded = inode::inode_bytes(found);
    assert(encoded.subrange(0, 8) =~= bytes::le_bytes(found.inode_number as nat, 8));
    lemma_number8(encoded, 0, found.inode_number as nat);
    assert(encoded.subrange(8, 16) =~= bytes::le_bytes(found.file_size_in_bytes as nat, 8));
    lemma_number8(encoded, 8, found.file_size_in_bytes as nat);
    assert(encoded.subrange(16, 24) =~= bytes::le_bytes(found.allocated_block_count as nat, 8));
    lemma_number8(encoded, 16, found.allocated_block_count as nat);
    assert(encoded.subrange(24, 32) =~= bytes::le_bytes(found.generation as nat, 8));
    lemma_number8(encoded, 24, found.generation as nat);
    assert(encoded.subrange(32, 40) =~= bytes::le_bytes(found.creation_time_nanoseconds as nat, 8));
    lemma_number8(encoded, 32, found.creation_time_nanoseconds as nat);
    assert(encoded.subrange(40, 48) =~= bytes::le_bytes(found.modification_time_nanoseconds as nat, 8));
    lemma_number8(encoded, 40, found.modification_time_nanoseconds as nat);
    assert(encoded.subrange(48, 56) =~= bytes::le_bytes(found.status_change_time_nanoseconds as nat, 8));
    lemma_number8(encoded, 48, found.status_change_time_nanoseconds as nat);
    assert(encoded.subrange(56, 64) =~= bytes::le_bytes(found.access_time_nanoseconds as nat, 8));
    lemma_number8(encoded, 56, found.access_time_nanoseconds as nat);
    assert(encoded.subrange(64, 68) =~= bytes::le_bytes(found.posix_mode as nat, 4));
    lemma_number4(encoded, 64, found.posix_mode as nat);
    assert(encoded.subrange(68, 72) =~= bytes::le_bytes(found.owner_uid as nat, 4));
    lemma_number4(encoded, 68, found.owner_uid as nat);
    assert(encoded.subrange(72, 76) =~= bytes::le_bytes(found.owner_gid as nat, 4));
    lemma_number4(encoded, 72, found.owner_gid as nat);
    assert(encoded.subrange(76, 80) =~= bytes::le_bytes(found.hard_link_count as nat, 4));
    lemma_number4(encoded, 76, found.hard_link_count as nat);
    assert(encoded.subrange(80, 84) =~= bytes::le_bytes(found.inode_flags as nat, 4));
    lemma_number4(encoded, 80, found.inode_flags as nat);
    assert(encoded.subrange(84, 88) =~= bytes::le_bytes(found.compression_algorithm as nat, 4));
    lemma_number4(encoded, 84, found.compression_algorithm as nat);
    assert(encoded.subrange(88, 96) =~= bytes::le_bytes(found.encryption_key_id as nat, 8));
    lemma_number8(encoded, 88, found.encryption_key_id as nat);
    assert(encoded.skip(96) =~= found.reserved@);
}

/// The fields of a superblock, in 512 bytes.
#[verifier::spinoff_prover]
#[verifier::rlimit(80)]
pub proof fn law_superblock_layout(found: BafsSuperblock)
    ensures
        ({
            let encoded = superblock::superblock_bytes(found);
            &&& encoded.len() == 512
            &&& encoded.take(8) == found.magic_number@
            &&& number4(encoded, 8) == found.version
            &&& number4(encoded, 12) == found.block_size_in_bytes
            &&& number8(encoded, 16) == found.total_block_count
            &&& number8(encoded, 24) == found.free_block_count
            &&& number8(encoded, 32) == found.allocated_inode_count
            &&& number8(encoded, 40) == found.last_committed_transaction_id
            &&& number8(encoded, 48) == found.root_inode_number
            &&& number8(encoded, 56) == found.inode_tree_root_block
            &&& number8(encoded, 64) == found.free_extent_tree_root_block
            &&& number8(encoded, 72) == found.checksum_tree_root_block
            &&& number8(encoded, 80) == found.journal_start_block
            &&& number8(encoded, 88) == found.journal_size_in_blocks
            &&& number8(encoded, 96) == found.volume_uuid@[0]
            &&& number8(encoded, 104) == found.volume_uuid@[1]
            &&& number8(encoded, 112) == found.volume_label@[0]
            &&& number8(encoded, 120) == found.volume_label@[1]
            &&& number8(encoded, 128) == found.volume_label@[2]
            &&& number8(encoded, 136) == found.volume_label@[3]
            &&& number4(encoded, 144) == found.feature_flags
            &&& number4(encoded, 148) == found.checksum_algorithm
            &&& number8(encoded, 152) == found.next_cow_block_address
            &&& encoded.subrange(160, 508) == found.reserved@
            &&& number4(encoded, 508) == found.superblock_checksum
        }),
{
    let encoded = superblock::superblock_bytes(found);
    assert(encoded.take(8) =~= found.magic_number@);
    assert(encoded.subrange(8, 12) =~= bytes::le_bytes(found.version as nat, 4));
    lemma_number4(encoded, 8, found.version as nat);
    assert(encoded.subrange(12, 16) =~= bytes::le_bytes(found.block_size_in_bytes as nat, 4));
    lemma_number4(encoded, 12, found.block_size_in_bytes as nat);
    assert(encoded.subrange(16, 24) =~= bytes::le_bytes(found.total_block_count as nat, 8));
    lemma_number8(encoded, 16, found.total_block_count as nat);
    assert(encoded.subrange(24, 32) =~= bytes::le_bytes(found.free_block_count as nat, 8));
    lemma_number8(encoded, 24, found.free_block_count as nat);
    assert(encoded.subrange(32, 40) =~= bytes::le_bytes(found.allocated_inode_count as nat, 8));
    lemma_number8(encoded, 32, found.allocated_inode_count as nat);
    assert(encoded.subrange(40, 48) =~= bytes::le_bytes(found.last_committed_transaction_id as nat, 8));
    lemma_number8(encoded, 40, found.last_committed_transaction_id as nat);
    assert(encoded.subrange(48, 56) =~= bytes::le_bytes(found.root_inode_number as nat, 8));
    lemma_number8(encoded, 48, found.root_inode_number as nat);
    assert(encoded.subrange(56, 64) =~= bytes::le_bytes(found.inode_tree_root_block as nat, 8));
    lemma_number8(encoded, 56, found.inode_tree_root_block as nat);
    assert(encoded.subrange(64, 72) =~= bytes::le_bytes(found.free_extent_tree_root_block as nat, 8));
    lemma_number8(encoded, 64, found.free_extent_tree_root_block as nat);
    assert(encoded.subrange(72, 80) =~= bytes::le_bytes(found.checksum_tree_root_block as nat, 8));
    lemma_number8(encoded, 72, found.checksum_tree_root_block as nat);
    assert(encoded.subrange(80, 88) =~= bytes::le_bytes(found.journal_start_block as nat, 8));
    lemma_number8(encoded, 80, found.journal_start_block as nat);
    assert(encoded.subrange(88, 96) =~= bytes::le_bytes(found.journal_size_in_blocks as nat, 8));
    lemma_number8(encoded, 88, found.journal_size_in_blocks as nat);
    assert(encoded.subrange(96, 104) =~= bytes::le_bytes(found.volume_uuid@[0] as nat, 8));
    lemma_number8(encoded, 96, found.volume_uuid@[0] as nat);
    assert(encoded.subrange(104, 112) =~= bytes::le_bytes(found.volume_uuid@[1] as nat, 8));
    lemma_number8(encoded, 104, found.volume_uuid@[1] as nat);
    assert(encoded.subrange(112, 120) =~= bytes::le_bytes(found.volume_label@[0] as nat, 8));
    lemma_number8(encoded, 112, found.volume_label@[0] as nat);
    assert(encoded.subrange(120, 128) =~= bytes::le_bytes(found.volume_label@[1] as nat, 8));
    lemma_number8(encoded, 120, found.volume_label@[1] as nat);
    assert(encoded.subrange(128, 136) =~= bytes::le_bytes(found.volume_label@[2] as nat, 8));
    lemma_number8(encoded, 128, found.volume_label@[2] as nat);
    assert(encoded.subrange(136, 144) =~= bytes::le_bytes(found.volume_label@[3] as nat, 8));
    lemma_number8(encoded, 136, found.volume_label@[3] as nat);
    assert(encoded.subrange(144, 148) =~= bytes::le_bytes(found.feature_flags as nat, 4));
    lemma_number4(encoded, 144, found.feature_flags as nat);
    assert(encoded.subrange(148, 152) =~= bytes::le_bytes(found.checksum_algorithm as nat, 4));
    lemma_number4(encoded, 148, found.checksum_algorithm as nat);
    assert(encoded.subrange(152, 160) =~= bytes::le_bytes(found.next_cow_block_address as nat, 8));
    lemma_number8(encoded, 152, found.next_cow_block_address as nat);
    assert(encoded.subrange(160, 508) =~= found.reserved@);
    assert(encoded.subrange(508, 512) =~= bytes::le_bytes(found.superblock_checksum as nat, 4));
    lemma_number4(encoded, 508, found.superblock_checksum as nat);
}

/// What is read from the bytes of a file extent.
pub proof fn law_extent_layout(source: Seq<u8>)
    requires
        source.len() == 32,
    ensures
        ({
            let found = extent::extent_from(source);
            &&& found.logical_byte_offset == number8(source, 0)
            &&& found.first_disk_block == number8(source, 8)
            &&& found.block_count == number8(source, 16)
            &&& found.extent_flags == number4(source, 24)
            &&& found.reserved == number4(source, 28)
        }),
{
    lemma_field8(source, 0);
    lemma_field8(source, 8);
    lemma_field8(source, 16);
    lemma_field4(source, 24);
    lemma_field4(source, 28);
}

/// What is read from the bytes of a free extent.
pub proof fn law_free_extent_layout(source: Seq<u8>)
    requires
        source.len() == 16,
    ensures
        ({
            let found = extent::free_extent_from(source);
            &&& found.block_address == number8(source, 0)
            &&& found.block_count == number8(source, 8)
        }),
{
    lemma_field8(source, 0);
    lemma_field8(source, 8);
}

/// What is read from the bytes of a checksum item.
pub proof fn law_checksum_item_layout(source: Seq<u8>)
    requires
        source.len() == 16,
    ensures
        ({
            let found = checksum_tree::checksum_item_from(source);
            &&& found.block_address == number8(source, 0)
            &&& found.crc32c_checksum == number4(source, 8)
            &&& found.reserved == number4(source, 12)
        }),
{
    lemma_field8(source, 0);
    lemma_field4(source, 8);
    lemma_field4(source, 12);
}

/// What is read from the bytes of a directory entry: it is damaged where it is shorter
/// than its name needs.
pub proof fn law_entry_layout(source: Seq<u8>)
    ensures
        match dir::entry_in(source) {
            Ok(found) => {
                &&& source.len() >= 12 + source[9]
                &&& found.child_inode_number == number8(source, 0)
                &&& found.child_type == source[8]
                &&& found.name_length_bytes == source[9]
                &&& utf8::valid_utf8(source.subrange(12, 12 + source[9])) ==> utf8::encode_utf8(
                    found.filename,
                ) == source.subrange(12, 12 + source[9])
            },
            Err(error) => {
                &&& error == BafsError::CorruptedStructure
                &&& source.len() < 12 || source.len() < 12 + source[9]
            },
        },
{
    if dir::entry_in(source) is Ok {
        lemma_field8(source, 0);
        let name = source.subrange(12, 12 + source[9]);
        if utf8::valid_utf8(name) {
            utf8::decode_utf8_encode_utf8(name);
        }
    }
}

/// What is read from the block of a tree node: its header; and, of a leaf, the keys one
/// after the other, each with the place and the length of its value; of another node,
/// the keys, each with a child.
pub proof fn law_node_layout(block: Seq<u8>, block_address: u64, index: int)
    requires
        block.len() == 4096,
        node::node_in_block(block, block_address) is Ok,
    ensures
        ({
            let found = node::node_in_block(block, block_address)->Ok_0;
            &&& found.node_checksum == number4(block, 0)
            &&& found.node_checksum == checksum::crc32c(block.skip(4))
            &&& found.level == block[4]
            &&& found.flags == block[5]
            &&& found.item_count == number2(block, 6)
            &&& found.self_block_address == number8(block, 8)
            &&& found.generation == number8(block, 16)
            &&& found.leaf_items.len() + found.internal_items.len() == number2(block, 6)
            &&& block[4] > 0 ==> found.leaf_items.len() == 0
            &&& block[4] == 0 ==> found.internal_items.len() == 0
            &&& 0 <= index < found.leaf_items.len() ==> {
                let item = found.leaf_items[index];
                let start = number4(block, 24 + 25 * index + 17);
                &&& is_key(block, 24 + 25 * index, item.key)
                &&& item.value.len() == number4(block, 24 + 25 * index + 21)
                &&& start + item.value.len() <= 4096
                &&& item.value == block.subrange(start, start + item.value.len())
            }
            &&& 0 <= index < found.internal_items.len() ==> {
                let item = found.internal_items[index];
                &&& is_key(block, 24 + 33 * index, item.key)
                &&& item.child_block == number8(block, 24 + 33 * index + 17)
                &&& item.child_generation == number8(block, 24 + 33 * index + 25)
            }
        }),
{
    reveal(node::node_in_block);
    lemma_field4(block, 0);
    lemma_field2(block, 6);
    lemma_field8(block, 8);
    lemma_field8(block, 16);
    let found = node::node_in_block(block, block_address)->Ok_0;
    if 0 <= index < found.leaf_items.len() {
        let at = 24 + 25 * index;
        assert(node::value_in_bounds(block, index));
        lemma_key(block, at);
        lemma_field4(block, at + 17);
        lemma_field4(block, at + 21);
    }
    if 0 <= index < found.internal_items.len() {
        let at = 24 + 33 * index;
        lemma_key(block, at);
        lemma_field8(block, at + 17);
        lemma_field8(block, at + 25);
    }
}

/// The nodes that a change of a tree writes carry the number of its transaction.
pub proof fn law_new_nodes_carry_the_transaction(
    cache: Map<u64, Vec<u8>>,
    start: int,
    end: int,
    generation: u64,
    address: u64,
)
    requires
        store::cache_valid(cache),
        store::stamped(cache, start, end, generation),
        start <= address < end,
    ensures
        cache.contains_key(address),
        number8(cache[address]@, 16) == generation,
{
    reveal(store::stamped);
    assert(cache.contains_key(address));
    lemma_field8(cache[address]@, 16);
}

/// When no node is read from a block: where the checksum is not that of what follows,
/// where there are more items than the block can hold, and where the value of an item
/// lies outside of it.
pub proof fn law_node_is_refused(block: Seq<u8>, block_address: u64)
    requires
        block.len() == 4096,
    ensures
        ({
            let count = number2(block, 6);
            let sound = number4(block, 0) == checksum::crc32c(block.skip(4));
            let too_many = if block[4] == 0 {
                24 + 25 * count > 4096
            } else {
                24 + 33 * count > 4096
            };
            let outside = block[4] == 0 && exists|i: int|
                0 <= i < count && number4(block, 24 + 25 * i + 17) + #[trigger] number4(
                    block,
                    24 + 25 * i + 21,
                ) > 4096;
            match node::node_in_block(block, block_address) {
                Ok(_) => sound && !too_many && !outside,
                Err(BafsError::InvalidChecksum { block_address: address }) => !sound && address
                    == block_address,
                Err(BafsError::CorruptedStructure) => sound && (too_many || outside),
                Err(_) => false,
            }
        }),
{
    reveal(node::node_in_block);
    lemma_field4(block, 0);
    lemma_field2(block, 6);
    let count = number2(block, 6);
    if block[4] == 0 && 24 + 25 * count <= 4096 {
        assert forall|i: int| 0 <= i < count implies #[trigger] node::value_in_bounds(block, i)
            == !(number4(block, 24 + 25 * i + 17) + number4(block, 24 + 25 * i + 21) > 4096) by {
            lemma_field4(block, 24 + 25 * i + 17);
            lemma_field4(block, 24 + 25 * i + 21);
        }
        if exists|i: int|
            0 <= i < count && number4(block, 24 + 25 * i + 17) + #[trigger] number4(
                block,
                24 + 25 * i + 21,
            ) > 4096 {
            let i = choose|i: int|
                0 <= i < count && number4(block, 24 + 25 * i + 17) + #[trigger] number4(
                    block,
                    24 + 25 * i + 21,
                ) > 4096;
            assert(!node::value_in_bounds(block, i));
        }
        if exists|i: int| 0 <= i < count && !#[trigger] node::value_in_bounds(block, i) {
            let i = choose|i: int| 0 <= i < count && !#[trigger] node::value_in_bounds(block, i);
            let length = number4(block, 24 + 25 * i + 21);
            assert(number4(block, 24 + 25 * i + 17) + length > 4096);
        }
    }
}

/// What is read from a journal: a record is found where the journal begins with the
/// magic bytes, a newer transaction and a count of blocks, behind which their addresses,
/// the blocks themselves and a checksum of all of it lie.
pub proof fn law_journal_layout(
    journal: Seq<u8>,
    last_committed_transaction_id: u64,
    index: int,
)
    ensures
        match journal::record_in_journal(journal, last_committed_transaction_id) {
            Some(record) => {
                let count = record.entries.len() as int;
                let end = 24 + 4104 * count;
                &&& journal.len() >= end + 4
                &&& journal.take(8) == journal::JOURNAL_COMMIT_RECORD_MAGIC@
                &&& record.transaction_id == number8(journal, 8)
                &&& record.transaction_id > last_committed_transaction_id
                &&& count == number4(journal, 16)
                &&& checksum::crc32c(journal.take(end)) == number4(journal, end)
                &&& 0 <= index < count ==> {
                    let entry = record.entries[index];
                    let start = 20 + 8 * count + 4096 * index;
                    &&& entry.address == number8(journal, 20 + 8 * index)
                    &&& entry.data == journal.subrange(start, start + 4096)
                }
            },
            None => {
                let end = 24 + 4104 * number4(journal, 16);
                ||| journal.len() < 24
                ||| journal.take(8) != journal::JOURNAL_COMMIT_RECORD_MAGIC@
                ||| number8(journal, 8) <= last_committed_transaction_id
                ||| journal.len() < end + 4
                ||| checksum::crc32c(journal.take(end)) != number4(journal, end)
            },
        },
{
    reveal(journal::record_in_journal);
    if journal.len() >= 24 {
        lemma_field8(journal, 8);
        lemma_field4(journal, 16);
        let count = number4(journal, 16);
        let end = 24 + 4104 * count;
        if journal.len() >= end + 4 {
            lemma_field4(journal, end);
            if 0 <= index < count {
                lemma_field8(journal, 20 + 8 * index);
            }
        }
    }
}

} // verus!
