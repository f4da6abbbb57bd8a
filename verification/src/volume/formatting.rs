//! Making an empty volume on a device.

use std::collections::BTreeMap;
use vstd::prelude::*;
use crate::block_device::BlockDevice;
use crate::block_io;
use crate::block_io::BlockWrite;
use crate::btree::key::BafsKey;
use crate::btree::model;
use crate::btree::node;
use crate::btree::store;
use crate::btree::tree;
use crate::bytes;
use crate::crash;
use crate::error::BafsError;
use crate::extent;
use crate::extent::BafsFreeExtent;
use crate::inode;
use crate::inode::BafsInode;
use crate::journal;
use crate::state;
use crate::state::VolumeState;
use crate::superblock;
use crate::superblock::{
    BafsSuperblock, BAFS_CHECKSUM_ALGORITHM_CRC32C, BAFS_DEFAULT_BLOCK_SIZE_BYTES,
    BAFS_JOURNAL_START_BLOCK_ADDRESS, BAFS_MAGIC_NUMBER, BAFS_ROOT_INODE_NUMBER,
    BAFS_SECTORS_PER_BLOCK, BAFS_SUPPORTED_VERSION,
};
use super::compute_node_area_end;
use super::model as volume_model;
use super::model::VolumeModel;

verus! {

/// What a new volume is to be called.
pub struct BafsFormatOptions {
    /// Lower half of the volume's identifier; the upper half is zero.
    pub volume_uuid_lower: u64,
    /// A label in UTF-8, padded with zeros.
    pub volume_label: [u8; 32],
}

impl Default for BafsFormatOptions {
    fn default() -> (options: Self)
        ensures
            options.volume_uuid_lower == 0xBAF5_0001_0000_0001u64,
            options.volume_label@ == seq![
                0x42u8,
                0x41,
                0x46,
                0x53,
                0x20,
                0x56,
                0x6F,
                0x6C,
                0x75,
                0x6D,
                0x65,
            ] + bytes::zeros(21),
    {
        let volume_label: [u8; 32] = [
            0x42, 0x41, 0x46, 0x53, 0x20, 0x56, 0x6F, 0x6C, 0x75, 0x6D, 0x65, 0, 0, 0, 0, 0, 0, 0,
            0, 0, 0, 0, 0, 0, 0, 0, 0, 0, 0, 0, 0, 0,
        ];
        assert(volume_label@ =~= seq![
            0x42u8,
            0x41,
            0x46,
            0x53,
            0x20,
            0x56,
            0x6F,
            0x6C,
            0x75,
            0x6D,
            0x65,
        ] + bytes::zeros(21));
        BafsFormatOptions { volume_uuid_lower: 0xBAF5_0001_0000_0001, volume_label }
    }
}

/// The superblock of a new volume, but for where its trees are.
pub open spec fn describes_new_volume(
    found: BafsSuperblock,
    total_block_count: u64,
    options: BafsFormatOptions,
) -> bool {
    &&& found.magic_number@ == BAFS_MAGIC_NUMBER@
    &&& found.version == 1
    &&& found.block_size_in_bytes == 4096
    &&& found.total_block_count == total_block_count
    &&& found.free_block_count == total_block_count - state::node_area_end(total_block_count)
    &&& found.allocated_inode_count == 1
    &&& found.last_committed_transaction_id == 1
    &&& found.root_inode_number == 1
    &&& found.journal_start_block == 3
    &&& found.journal_size_in_blocks == superblock::journal_size(total_block_count)
    &&& found.volume_uuid@ == seq![options.volume_uuid_lower, 0u64]
    &&& found.volume_label@ == Seq::new(
        4,
        |i: int| bytes::field(options.volume_label@, 8 * i, 8) as u64,
    )
    &&& found.feature_flags == 0
    &&& found.checksum_algorithm == 0
    &&& found.reserved@ == bytes::zeros(348)
}

/// The contents of a new volume: the root directory, and all data blocks free.
pub open spec fn is_new_volume(contents: VolumeState) -> bool {
    let root_key = inode::inode_key(1);
    let first = state::node_area_end(contents.total) as u64;
    &&& contents.inode_count == 1
    &&& contents.inodes == Map::<BafsKey, Seq<u8>>::empty().insert(
        root_key,
        contents.inodes[root_key],
    )
    &&& inode::new_inode_record(contents.inodes[root_key], 1, 1, 0o040755, 2)
    &&& contents.free == Map::<BafsKey, Seq<u8>>::empty().insert(
        extent::free_key(first),
        extent::free_extent_bytes(
            BafsFreeExtent { block_address: first, block_count: (contents.total - first) as u64 },
        ),
    )
    &&& contents.checksums == Map::<BafsKey, Seq<u8>>::empty()
}

/// The trees of a new volume are small, and lie at the start of the node area. The
/// first transaction wrote them.
pub open spec fn has_small_trees(volume: VolumeModel) -> bool {
    let blocks = volume.blocks();
    &&& tree::root_level(blocks, volume.superblock.inode_tree_root_block) <= 1
    &&& tree::root_level(blocks, volume.superblock.free_extent_tree_root_block) <= 1
    &&& tree::root_level(blocks, volume.superblock.checksum_tree_root_block) == 0
    &&& volume.next_free <= volume.node_area_start() + 9
    &&& volume_model::nodes_stamped(
        blocks,
        volume.node_area_start(),
        volume.next_free as int,
        1,
    )
}

/// The device holds a new volume.
pub open spec fn formatted(
    disk: Seq<u8>,
    total_block_count: u64,
    options: BafsFormatOptions,
) -> bool {
    &&& superblock::superblock_at(disk, 1) is Ok
    &&& {
        let found = superblock::superblock_at(disk, 1)->Ok_0;
        let volume = volume_model::mounted_model(disk, found);
        &&& describes_new_volume(found, total_block_count, options)
        &&& superblock::superblock_at(disk, 2) == Ok::<BafsSuperblock, BafsError>(found)
        &&& forall|address: u64|
            3 <= address < 3 + found.journal_size_in_blocks ==> #[trigger] block_io::disk_block(
                disk,
                address,
            ) == bytes::zeros(4096)
        &&& journal::pending_record(disk, found) is None
        &&& volume.in_order()
        &&& is_new_volume(volume.state())
        &&& has_small_trees(volume)
    }
}

/// An empty tree is in order.
proof fn lemma_empty_tree_ready(
    blocks: Map<u64, Seq<u8>>,
    root: u64,
    base: int,
    bound: int,
)
    requires
        base <= root < bound,
        model::tree_confined(blocks, root, root as int, root + 1),
        forall|target: BafsKey| #[trigger]
            model::tree_get(blocks, root, target) == Ok::<Option<Seq<u8>>, BafsError>(None),
    ensures
        tree::tree_ready(blocks, root, base, bound),
        model::tree_map(blocks, root) == Map::<BafsKey, Seq<u8>>::empty(),
{
    model::lemma_confined_widens(
        blocks,
        root,
        model::root_span(),
        root as int,
        root + 1,
        base,
        bound,
    );
    assert(model::tree_map(blocks, root) =~= Map::<BafsKey, Seq<u8>>::empty());
}

/// There is an empty tree at `root`, in one of three blocks from `start` on.
spec fn empty_tree_at(blocks: Map<u64, Seq<u8>>, root: u64, start: int) -> bool {
    &&& tree::tree_ready(blocks, root, start, start + 3)
    &&& model::tree_map(blocks, root) == Map::<BafsKey, Seq<u8>>::empty()
    &&& tree::root_level(blocks, root) == 0
}

/// Three empty trees in consecutive blocks.
fn create_empty_trees(start: u64) -> (dirty_cache: BTreeMap<u64, Vec<u8>>)
    requires
        start + 3 <= u64::MAX,
    ensures
        store::cache_valid(dirty_cache@),
        store::stamped(dirty_cache@, start as int, start + 3, 1),
        forall|address: u64| #[trigger]
            dirty_cache@.contains_key(address) ==> start <= address < start + 3,
        forall|disk: Seq<u8>, root: u64|
            start <= root < start + 3 ==> #[trigger] empty_tree_at(
                store::visible_blocks(disk, dirty_cache@),
                root,
                start as int,
            ),
{
    broadcast use vstd::std_specs::btree::group_btree_axioms;

    let mut dirty_cache: BTreeMap<u64, Vec<u8>> = BTreeMap::new();
    tree::create_empty_tree(&mut dirty_cache, start, 1);
    let ghost first = dirty_cache@;
    tree::create_empty_tree(&mut dirty_cache, start + 1, 1);
    let ghost second = dirty_cache@;
    tree::create_empty_tree(&mut dirty_cache, start + 2, 1);
    proof {
        let third = dirty_cache@;
        store::lemma_stamped_joins(first, second, start as int, start + 1, start + 2, 1);
        store::lemma_stamped_joins(second, third, start as int, start + 2, start + 3, 1);
        assert forall|address: u64| #[trigger] third.contains_key(address) implies start <= address
            < start + 3 by {
            if !(start <= address < start + 3) {
                assert(second.contains_key(address));
                assert(first.contains_key(address));
            }
        }
        assert forall|disk: Seq<u8>, root: u64|
            start <= root < start + 3 implies #[trigger] empty_tree_at(
            store::visible_blocks(disk, third),
            root,
            start as int,
        ) by {
            let blocks = store::visible_blocks(disk, third);
            let middle = store::visible_blocks(disk, second);
            let early = store::visible_blocks(disk, first);
            model::lemma_cow_frame_agrees(disk, first, second, start + 1, start + 2);
            model::lemma_cow_frame_agrees(disk, second, third, start + 2, start + 3);
            if root == start {
                assert(model::agree(early, middle, start as int, start + 1));
                model::lemma_tree_agrees(early, middle, root, start as int, start + 1, start + 1);
                assert(model::agree(middle, blocks, start as int, start + 1)) by {
                    assert(model::agree(middle, blocks, start as int, start + 2));
                }
                model::lemma_tree_agrees(middle, blocks, root, start as int, start + 1, start + 1);
            } else if root == start + 1 {
                assert(model::agree(middle, blocks, start + 1, start + 2));
                model::lemma_tree_agrees(middle, blocks, root, start + 1, start + 2, start + 2);
            }
            lemma_empty_tree_ready(blocks, root, start as int, start + 3);
        }
    }
    dirty_cache
}

fn label_words(label: &[u8; 32]) -> (words: [u64; 4])
    ensures
        words@ == Seq::new(4, |i: int| bytes::field(label@, 8 * i, 8) as u64),
{
    proof {
        bytes::lemma_byte_capacities();
    }
    let source: &[u8] = label.as_slice();
    let words: [u64; 4] = [
        bytes::read_le(source, 0, 8),
        bytes::read_le(source, 8, 8),
        bytes::read_le(source, 16, 8),
        bytes::read_le(source, 24, 8),
    ];
    assert(words@ =~= Seq::new(4, |i: int| bytes::field(label@, 8 * i, 8) as u64));
    words
}

/// The superblock of a new volume whose trees are all empty.
fn initial_superblock(total_block_count: u64, options: &BafsFormatOptions) -> (superblock:
    BafsSuperblock)
    requires
        total_block_count >= superblock::data_area_start(total_block_count) + 13,
    ensures
        describes_new_volume(superblock, total_block_count, *options),
        superblock.inode_tree_root_block == superblock::data_area_start(total_block_count),
        superblock.free_extent_tree_root_block == superblock::data_area_start(total_block_count)
            + 1,
        superblock.checksum_tree_root_block == superblock::data_area_start(total_block_count) + 2,
{
    let start: u64 = superblock::compute_data_area_start_block(total_block_count);
    proof {
        volume_model::lemma_area_bounds(total_block_count);
    }
    let reserved: [u8; 348] = [0u8;348];
    assert(reserved@ =~= bytes::zeros(348));
    let volume_uuid: [u64; 2] = [options.volume_uuid_lower, 0];
    assert(volume_uuid@ =~= seq![options.volume_uuid_lower, 0u64]);
    BafsSuperblock {
        magic_number: BAFS_MAGIC_NUMBER,
        version: BAFS_SUPPORTED_VERSION,
        block_size_in_bytes: BAFS_DEFAULT_BLOCK_SIZE_BYTES,
        total_block_count,
        free_block_count: total_block_count - compute_node_area_end(total_block_count),
        allocated_inode_count: 1,
        last_committed_transaction_id: 1,
        root_inode_number: BAFS_ROOT_INODE_NUMBER,
        inode_tree_root_block: start,
        free_extent_tree_root_block: start + 1,
        checksum_tree_root_block: start + 2,
        journal_start_block: BAFS_JOURNAL_START_BLOCK_ADDRESS,
        journal_size_in_blocks: superblock::compute_journal_size_in_blocks(total_block_count),
        volume_uuid,
        volume_label: label_words(&options.volume_label),
        feature_flags: 0,
        checksum_algorithm: BAFS_CHECKSUM_ALGORITHM_CRC32C,
        next_cow_block_address: start + 3,
        reserved,
        superblock_checksum: 0,
    }
}

/// A volume with three empty trees is in order.
proof fn lemma_empty_volume(volume: VolumeModel)
    requires
        volume.laid_out(),
        volume.trees_ready(),
        volume.state().inodes == Map::<BafsKey, Seq<u8>>::empty(),
        volume.state().free == Map::<BafsKey, Seq<u8>>::empty(),
        volume.state().checksums == Map::<BafsKey, Seq<u8>>::empty(),
    ensures
        volume.in_order(),
{
    let contents = volume.state();
    assert forall|address: u64| #[trigger] contents.is_data_block(
        address,
    ) implies contents.data.contains_key(address) && contents.data[address].len() == 4096 by {
        if volume.cache.contains_key(address) {
            assert(volume.cache[address]@.len() == 4096);
        } else {
            assert(block_io::block_on_disk(volume.disk, address));
        }
    }
}

/// Freeing all data blocks of a volume on which none are free and none in use.
proof fn lemma_all_blocks_freed(contents: VolumeState)
    requires
        contents.ok(),
        contents.inodes == Map::<BafsKey, Seq<u8>>::empty(),
        contents.free == Map::<BafsKey, Seq<u8>>::empty(),
    ensures
        ({
            let first = state::node_area_end(contents.total) as u64;
            let count = (contents.total - first) as u64;
            (VolumeState {
                free: Map::<BafsKey, Seq<u8>>::empty().insert(
                    extent::free_key(first),
                    extent::free_extent_bytes(
                        BafsFreeExtent { block_address: first, block_count: count },
                    ),
                ),
                ..contents
            }).ok()
        }),
{
    let first = state::node_area_end(contents.total) as u64;
    let count = (contents.total - first) as u64;
    volume_model::lemma_area_bounds(contents.total);
    assert forall|block: u64| first <= block < first + count implies #[trigger] contents.unused(
        block,
    ) by {
        assert(!extent::is_free(contents.free, block));
    }
    state::lemma_return_blocks(contents, first, count);
    assert(!extent::has_predecessor(contents.free, first));
    assert(extent::freed_map(contents.free, first, count) =~= Map::<
        BafsKey,
        Seq<u8>,
    >::empty().insert(
        extent::free_key(first),
        extent::free_extent_bytes(BafsFreeExtent { block_address: first, block_count: count }),
    ));
}

/// Fill the journal with zeros.
fn clear_journal<D: BlockDevice>(device: &mut D, journal_size_in_blocks: u64) -> (result: Result<
    (),
    BafsError,
>)
    requires
        journal_size_in_blocks <= 16_384,
        (3 + journal_size_in_blocks) * 4096 <= old(device).contents().len(),
    ensures
        final(device).reliable() == old(device).reliable(),
        result matches Err(error) ==> error == BafsError::InputOutputError && !old(
            device,
        ).reliable(),
        result is Ok ==> {
            &&& final(device).contents().len() == old(device).contents().len()
            &&& forall|address: u64|
                3 <= address < 3 + journal_size_in_blocks ==> #[trigger] block_io::disk_block(
                    final(device).contents(),
                    address,
                ) == bytes::zeros(4096)
            &&& forall|address: u64|
                !(3 <= address < 3 + journal_size_in_blocks) && block_io::block_on_disk(
                    old(device).contents(),
                    address,
                ) ==> #[trigger] block_io::disk_block(final(device).contents(), address)
                    == block_io::disk_block(old(device).contents(), address)
        },
{
    let zeroed_block = bytes::zeroed_buffer(4096);
    let mut index: u64 = 0;
    while index < journal_size_in_blocks
        invariant
            index <= journal_size_in_blocks <= 16_384,
            (3 + journal_size_in_blocks) * 4096 <= old(device).contents().len(),
            zeroed_block@ == bytes::zeros(4096),
            device.reliable() == old(device).reliable(),
            device.contents().len() == old(device).contents().len(),
            forall|address: u64|
                3 <= address < 3 + index ==> #[trigger] block_io::disk_block(
                    device.contents(),
                    address,
                ) == bytes::zeros(4096),
            forall|address: u64|
                !(3 <= address < 3 + index) && block_io::block_on_disk(
                    old(device).contents(),
                    address,
                ) ==> #[trigger] block_io::disk_block(device.contents(), address)
                    == block_io::disk_block(old(device).contents(), address),
        decreases journal_size_in_blocks - index,
    {
        let ghost before = device.contents();
        let address: u64 = BAFS_JOURNAL_START_BLOCK_ADDRESS + index;
        match block_io::write_block_to_device(device, address, zeroed_block.as_slice()) {
            Ok(_) => {},
            Err(error) => {
                return Err(error);
            },
        }
        proof {
            block_io::lemma_write_block(before, address, zeroed_block@);
            assert forall|other: u64|
                3 <= other < 3 + index + 1 implies #[trigger] block_io::disk_block(
                device.contents(),
                other,
            ) == bytes::zeros(4096) by {
                if other != address {
                    assert(block_io::disk_block(before, other) == bytes::zeros(4096));
                }
            }
            assert forall|other: u64|
                !(3 <= other < 3 + index + 1) && block_io::block_on_disk(
                    old(device).contents(),
                    other,
                ) implies #[trigger] block_io::disk_block(device.contents(), other)
                == block_io::disk_block(old(device).contents(), other) by {
                assert(block_io::disk_block(before, other) == block_io::disk_block(
                    old(device).contents(),
                    other,
                ));
            }
        }
        index = index + 1;
    }
    Ok(())
}

/// Nothing is recorded in a journal of zeros.
proof fn lemma_journal_of_zeros(disk: Seq<u8>, found: BafsSuperblock)
    requires
        found.journal_start_block == 3,
        found.journal_size_in_blocks > 0,
        journal::journal_on_disk(disk, found),
        block_io::disk_block(disk, 3) == bytes::zeros(4096),
    ensures
        journal::pending_record(disk, found) is None,
{
    reveal(journal::record_in_journal);
    let area = journal::journal_area(disk, found);
    assert(area[0] == block_io::disk_block(disk, 3)[0]);
    assert(area.take(8)[0] == 0);
}

/// The blocks and the superblock of a new volume, before they are written.
struct NewVolume {
    superblock: BafsSuperblock,
    dirty_cache: BTreeMap<u64, Vec<u8>>,
    next_free_block: u64,
}

impl NewVolume {
    spec fn model(&self, disk: Seq<u8>) -> VolumeModel {
        VolumeModel {
            disk,
            superblock: self.superblock,
            cache: self.dirty_cache@,
            next_free: self.next_free_block,
            next_transaction: 2,
            superseded: Seq::empty(),
        }
    }
}

/// Build the trees of a new volume: the free blocks, and the root directory.
#[verifier::spinoff_prover]
#[verifier::rlimit(40)]
fn build_new_volume<D: BlockDevice>(
    device: &D,
    total_block_count: u64,
    options: &BafsFormatOptions,
) -> (result: Result<NewVolume, BafsError>)
    requires
        total_block_count >= superblock::data_area_start(total_block_count) + 13,
        total_block_count * 4096 <= device.contents().len() <= u64::MAX * 512,
    ensures
        match result {
            Ok(volume) => {
                &&& volume.model(device.contents()).in_order()
                &&& is_new_volume(volume.model(device.contents()).state())
                &&& has_small_trees(volume.model(device.contents()))
                &&& describes_new_volume(volume.superblock, total_block_count, *options)
                &&& volume.superblock.next_cow_block_address == volume.next_free_block
            },
            Err(error) => error == BafsError::InputOutputError && !device.reliable(),
        },
{
    let ghost disk = device.contents();
    let start: u64 = superblock::compute_data_area_start_block(total_block_count);
    let first_data_block: u64 = compute_node_area_end(total_block_count);
    let generation: u64 = 1;
    let mut superblock = initial_superblock(total_block_count, options);
    let mut dirty_cache = create_empty_trees(start);
    let mut next_free_block: u64 = start + 3;
    let mut superseded: Vec<u64> = Vec::new();
    let ghost empty = VolumeModel {
        disk,
        superblock,
        cache: dirty_cache@,
        next_free: next_free_block,
        next_transaction: 2,
        superseded: Seq::empty(),
    };
    proof {
        volume_model::lemma_area_bounds(total_block_count);
        assert(empty_tree_at(empty.blocks(), start, start as int));
        assert(empty_tree_at(empty.blocks(), (start + 1) as u64, start as int));
        assert(empty_tree_at(empty.blocks(), (start + 2) as u64, start as int));
        lemma_empty_volume(empty);
        let extent = BafsFreeExtent {
            block_address: first_data_block,
            block_count: (total_block_count - first_data_block) as u64,
        };
        extent::law_free_extent_round_trip(extent);
        tree::lemma_insert_succeeds(
            empty.blocks(),
            superblock.free_extent_tree_root_block,
            extent::free_key(first_data_block),
            extent::free_extent_bytes(extent),
        );
    }
    match extent::insert_free_extent_into_tree(
        device,
        &mut dirty_cache,
        superblock.free_extent_tree_root_block,
        first_data_block,
        total_block_count - first_data_block,
        generation,
        &mut next_free_block,
        &mut superseded,
    ) {
        Err(error) => {
            return Err(error);
        },
        Ok(new_root) => {
            superblock.free_extent_tree_root_block = new_root;
        },
    }
    let ghost freed = VolumeModel {
        disk,
        superblock,
        cache: dirty_cache@,
        next_free: next_free_block,
        next_transaction: 2,
        superseded: Seq::empty(),
    };
    let root_inode = BafsInode::new_directory(BAFS_ROOT_INODE_NUMBER, generation, 0);
    proof {
        tree::lemma_tree_stays_ready(
            disk,
            empty.cache,
            freed.cache,
            empty.superblock.free_extent_tree_root_block,
            freed.superblock.free_extent_tree_root_block,
            extent::free_key(first_data_block),
            Some(
                extent::free_extent_bytes(
                    BafsFreeExtent {
                        block_address: first_data_block,
                        block_count: (total_block_count - first_data_block) as u64,
                    },
                ),
            ),
            start as int,
            empty.next_free as int,
            freed.next_free as int,
        );
        volume_model::lemma_free_tree_changed(empty, freed);
        lemma_all_blocks_freed(empty.state());
        volume_model::lemma_nodes_added(empty, freed);
        assert(empty.tree_ready(start));
        assert(tree::root_level(freed.blocks(), start) == 0);
        inode::lemma_inode_len(root_inode);
        tree::lemma_insert_succeeds(
            freed.blocks(),
            start,
            inode::inode_key(1),
            inode::inode_bytes(root_inode),
        );
    }
    match inode::write_inode_to_tree(
        device,
        &mut dirty_cache,
        superblock.inode_tree_root_block,
        &root_inode,
        generation,
        &mut next_free_block,
        &mut superseded,
    ) {
        Err(error) => {
            return Err(error);
        },
        Ok(new_root) => {
            superblock.inode_tree_root_block = new_root;
        },
    }
    let ghost complete = VolumeModel {
        disk,
        superblock,
        cache: dirty_cache@,
        next_free: next_free_block,
        next_transaction: 2,
        superseded: Seq::empty(),
    };
    proof {
        let key = inode::inode_key(1);
        let value = inode::inode_bytes(root_inode);
        volume_model::lemma_inode_tree_changed(freed, complete, key, Some(value));
        inode::law_inode_round_trip(root_inode);
        state::lemma_with_plain_record(freed.state(), key, value);
        assert(complete.state() == state::with_record(freed.state(), key, value));
    }
    proof {
        store::lemma_stamped_joins(
            empty.cache,
            freed.cache,
            start as int,
            empty.next_free as int,
            freed.next_free as int,
            1,
        );
        store::lemma_stamped_joins(
            freed.cache,
            complete.cache,
            start as int,
            freed.next_free as int,
            complete.next_free as int,
            1,
        );
        volume_model::lemma_cached_nodes_stamped(complete, start as int, 1);
    }
    superblock.next_cow_block_address = next_free_block;
    let volume = NewVolume { superblock, dirty_cache, next_free_block };
    assert(volume.model(disk).state() == complete.state());
    Ok(volume)
}

/// Make an empty volume on `device`. All that the device holds is lost.
pub fn bafs_format<D: BlockDevice>(device: &mut D, options: BafsFormatOptions) -> (result: Result<
    (),
    BafsError,
>)
    ensures
        final(device).reliable() == old(device).reliable(),
        ({
            let total = (old(device).contents().len() / 4096) as u64;
            if total < superblock::data_area_start(total) + 13 {
                &&& result == Err::<(), BafsError>(BafsError::OutOfSpace)
                &&& final(device).contents() == old(device).contents()
            } else {
                &&& match result {
                    Ok(_) => formatted(final(device).contents(), total, options),
                    Err(error) => error == BafsError::InputOutputError && !old(device).reliable(),
                }
                &&& result is Ok ==> final(device).contents().len() == old(
                    device,
                ).contents().len()
            }
        }),
{
    let total_sector_count: u64 = device.total_sector_count();
    let total_block_count: u64 = total_sector_count / BAFS_SECTORS_PER_BLOCK as u64;
    let ghost disk = device.contents();
    assert(disk.len() / 4096 == total_sector_count / 8) by {
        assert(disk.len() == total_sector_count * 512);
    }
    if total_block_count < superblock::compute_data_area_start_block(total_block_count) + 13 {
        return Err(BafsError::OutOfSpace);
    }
    let volume = match build_new_volume(device, total_block_count, &options) {
        Ok(volume) => volume,
        Err(error) => {
            return Err(error);
        },
    };
    let ghost built = volume.model(disk);
    match clear_journal(device, volume.superblock.journal_size_in_blocks) {
        Ok(_) => {},
        Err(error) => {
            return Err(error);
        },
    }
    let ghost cleared = device.contents();
    proof {
        assert forall|address: u64| #[trigger] built.cache.contains_key(
            address,
        ) implies block_io::block_on_disk(cleared, address) by {}
    }
    match journal::write_cache_to_device(device, &volume.dirty_cache) {
        Ok(_) => {},
        Err(error) => {
            return Err(error);
        },
    }
    let ghost written = device.contents();
    let ghost entries = choose|entries: Seq<BlockWrite>|
        #![trigger journal::lists_cache(built.cache, entries)]
        journal::lists_cache(built.cache, entries) && block_io::performed(
            cleared,
            entries,
            written,
            true,
        );
    proof {
        block_io::lemma_apply_writes_len(cleared, entries);
    }
    let mut superblock = volume.superblock;
    match superblock::write_superblock_to_device(device, &mut superblock) {
        Ok(_) => {},
        Err(error) => {
            return Err(error);
        },
    }
    proof {
        lemma_written_volume(
            built,
            cleared,
            entries,
            device.contents(),
            total_block_count,
            options,
        );
    }
    Ok(())
}

/// The device after all parts of a new volume were written.
proof fn lemma_written_volume(
    built: VolumeModel,
    cleared: Seq<u8>,
    entries: Seq<BlockWrite>,
    after: Seq<u8>,
    total_block_count: u64,
    options: BafsFormatOptions,
)
    requires
        built.in_order(),
        is_new_volume(built.state()),
        has_small_trees(built),
        describes_new_volume(built.superblock, total_block_count, options),
        built.superblock.next_cow_block_address == built.next_free,
        cleared.len() == built.disk.len(),
        forall|address: u64|
            3 <= address < 3 + built.superblock.journal_size_in_blocks
                ==> #[trigger] block_io::disk_block(cleared, address) == bytes::zeros(4096),
        forall|address: u64|
            !(3 <= address < 3 + built.superblock.journal_size_in_blocks)
                && block_io::block_on_disk(built.disk, address) ==> #[trigger] block_io::disk_block(
                cleared,
                address,
            ) == block_io::disk_block(built.disk, address),
        journal::lists_cache(built.cache, entries),
        block_io::writes_on_disk(cleared, entries),
        after == block_io::apply_writes(
            block_io::apply_writes(cleared, entries),
            superblock::superblock_writes(superblock::sealed(built.superblock)),
        ),
    ensures
        formatted(after, total_block_count, options),
        after.len() == built.disk.len(),
{
    let written = block_io::apply_writes(cleared, entries);
    let stored = superblock::sealed(built.superblock);
    let last = superblock::superblock_writes(stored);
    let volume = volume_model::mounted_model(after, stored);
    volume_model::lemma_area_bounds(total_block_count);
    block_io::lemma_apply_writes_len(cleared, entries);
    superblock::law_stored_superblock_is_found(written, built.superblock);
    superblock::lemma_superblock_len(stored);
    block_io::lemma_apply_writes_len(written, last);
    assert forall|address: u64|
        3 <= address && block_io::block_on_disk(cleared, address) implies #[trigger] block_io::disk_block(
        after,
        address,
    ) == block_io::block_after(cleared, entries, address) by {
        block_io::lemma_block_after(written, last, address);
        block_io::lemma_no_write(last, address);
        block_io::lemma_block_after(cleared, entries, address);
    }
    assert forall|address: u64|
        built.node_area_start() <= address
            < built.superblock.total_block_count implies #[trigger] block_io::disk_block(
        after,
        address,
    ) == built.blocks()[address] by {
        crash::lemma_cache_written(cleared, built.cache, entries, address);
        assert(block_io::disk_block(cleared, address) == block_io::disk_block(
            built.disk,
            address,
        ));
    }
    assert forall|address: u64|
        3 <= address < 3 + built.superblock.journal_size_in_blocks implies #[trigger] block_io::disk_block(
        after,
        address,
    ) == bytes::zeros(4096) by {
        assert forall|i: int| 0 <= i < entries.len() implies (#[trigger] entries[i]).address
            != address by {
            assert(built.cache.contains_key(entries[i].address));
        }
        block_io::lemma_no_write(entries, address);
        assert(block_io::disk_block(cleared, address) == bytes::zeros(4096));
    }
    lemma_journal_of_zeros(after, stored);
    volume_model::lemma_blocks_in_place(built, volume);
    assert(volume_model::nodes_stamped(
        volume.blocks(),
        volume.node_area_start(),
        volume.next_free as int,
        1,
    )) by {
        reveal(volume_model::nodes_stamped);
        assert forall|address: u64|
            volume.node_area_start() <= address
                < volume.next_free implies #[trigger] volume.blocks().contains_key(address)
            && node::generation_of(volume.blocks()[address]) == 1 by {
            assert(built.blocks().contains_key(address));
            assert(block_io::disk_block(after, address) == built.blocks()[address]);
        }
    }
}

} // verus!
