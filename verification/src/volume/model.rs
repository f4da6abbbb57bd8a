//! What a mounted volume is made of: the device, the superblock, the blocks that
//! were written since the last commit, and how they hold the volume's contents.

use vstd::prelude::*;
use crate::block_io;
use crate::btree::fanout;
use crate::btree::key::BafsKey;
use crate::btree::model;
use crate::btree::node;
use crate::btree::store;
use crate::btree::tree;
use crate::error::BafsError;
use crate::state;
use crate::state::VolumeState;
use crate::superblock;
use crate::superblock::BafsSuperblock;

verus! {

/// A mounted volume.
pub struct VolumeModel {
    /// The bytes on the device.
    pub disk: Seq<u8>,
    /// The superblock in memory.
    pub superblock: BafsSuperblock,
    /// The blocks that were written since the last commit.
    pub cache: Map<u64, Vec<u8>>,
    /// The next block for a tree node.
    pub next_free: u64,
    /// The id of the next transaction.
    pub next_transaction: u64,
    /// The blocks of tree nodes that were superseded since the last commit.
    pub superseded: Seq<u64>,
}

impl VolumeModel {
    /// All blocks, as the volume sees them.
    pub open spec fn blocks(self) -> Map<u64, Seq<u8>> {
        store::visible_blocks(self.disk, self.cache)
    }

    /// First block of the tree nodes.
    pub open spec fn node_area_start(self) -> int {
        superblock::data_area_start(self.superblock.total_block_count) as int
    }

    /// First block behind the area of tree nodes.
    pub open spec fn node_area_end(self) -> int {
        state::node_area_end(self.superblock.total_block_count)
    }

    /// What the volume holds.
    pub open spec fn state(self) -> VolumeState {
        VolumeState {
            total: self.superblock.total_block_count,
            inode_count: self.superblock.allocated_inode_count,
            inodes: model::tree_map(self.blocks(), self.superblock.inode_tree_root_block),
            free: model::tree_map(self.blocks(), self.superblock.free_extent_tree_root_block),
            checksums: model::tree_map(self.blocks(), self.superblock.checksum_tree_root_block),
            data: Map::new(
                |address: u64|
                    self.node_area_end() <= address < self.superblock.total_block_count
                        && self.blocks().contains_key(address),
                |address: u64| self.blocks()[address],
            ),
        }
    }

    /// The areas of the volume are where they belong.
    pub open spec fn laid_out(self) -> bool {
        let total = self.superblock.total_block_count;
        &&& store::cache_valid(self.cache)
        &&& self.superblock.magic_number@ == superblock::BAFS_MAGIC_NUMBER@
        &&& self.superblock.version == 1
        &&& self.superblock.journal_start_block == 3
        &&& self.superblock.journal_size_in_blocks == superblock::journal_size(total)
        &&& total >= self.node_area_start() + 13
        &&& total * 4096 <= self.disk.len() <= u64::MAX * 512
        &&& self.node_area_start() <= self.next_free <= self.node_area_end()
        &&& self.superblock.last_committed_transaction_id < self.next_transaction
        &&& forall|address: u64| #[trigger]
            self.cache.contains_key(address) ==> self.node_area_start() <= address < total
    }

    /// A tree of the volume is in order.
    pub open spec fn tree_ready(self, root: u64) -> bool {
        tree::tree_ready(self.blocks(), root, self.node_area_start(), self.next_free as int)
    }

    /// The trees of the volume are in order.
    pub open spec fn trees_ready(self) -> bool {
        &&& self.tree_ready(self.superblock.inode_tree_root_block)
        &&& self.tree_ready(self.superblock.free_extent_tree_root_block)
        &&& self.tree_ready(self.superblock.checksum_tree_root_block)
    }

    /// The volume is in order.
    pub open spec fn in_order(self) -> bool {
        &&& self.laid_out()
        &&& self.trees_ready()
        &&& self.state().ok()
    }
}

/// Two superblocks differ at most in what an operation on a volume changes.
pub open spec fn same_volume(left: BafsSuperblock, right: BafsSuperblock) -> bool {
    right == BafsSuperblock {
        free_block_count: right.free_block_count,
        allocated_inode_count: right.allocated_inode_count,
        inode_tree_root_block: right.inode_tree_root_block,
        free_extent_tree_root_block: right.free_extent_tree_root_block,
        checksum_tree_root_block: right.checksum_tree_root_block,
        ..left
    }
}

/// The volume was worked on, and nothing was committed.
pub open spec fn same_session(before: VolumeModel, after: VolumeModel) -> bool {
    &&& after.disk == before.disk
    &&& after.next_transaction == before.next_transaction
    &&& same_volume(before.superblock, after.superblock)
}

/// The running transaction wrote tree nodes, and to some of the `count` blocks from
/// `first` on. Every other block, and the device, is as it was, and of the blocks
/// that were superseded none was forgotten.
pub open spec fn worked_on(
    before: VolumeModel,
    after: VolumeModel,
    first: int,
    count: nat,
) -> bool {
    &&& same_session(before, after)
    &&& before.next_free <= after.next_free
    &&& store::cache_valid(after.cache)
    &&& tree::extends(before.superseded, after.superseded)
    &&& forall|address: u64|
        !(before.next_free <= address < after.next_free) && !(first <= address < first + count)
            ==> #[trigger] after.cache.contains_key(address) == before.cache.contains_key(address)
            && (before.cache.contains_key(address) ==> after.cache[address]
            == before.cache[address])
}

pub proof fn lemma_worked_on_joins(
    first: VolumeModel,
    second: VolumeModel,
    third: VolumeModel,
    start: int,
    count: nat,
)
    requires
        worked_on(first, second, start, count),
        worked_on(second, third, start, count),
    ensures
        worked_on(first, third, start, count),
{
    assert forall|address: u64|
        !(first.next_free <= address < third.next_free) && !(start <= address < start
            + count) implies #[trigger] third.cache.contains_key(address)
        == first.cache.contains_key(address) && (first.cache.contains_key(address)
        ==> third.cache[address] == first.cache[address]) by {
        assert(second.cache.contains_key(address) == first.cache.contains_key(address));
        assert(third.cache.contains_key(address) == second.cache.contains_key(address));
    }
}

/// Work on some blocks is work on more.
pub proof fn lemma_worked_on_more(
    before: VolumeModel,
    after: VolumeModel,
    start: int,
    count: nat,
    more_start: int,
    more_count: nat,
)
    requires
        worked_on(before, after, start, count),
        count == 0 || more_start <= start && start + count <= more_start + more_count,
    ensures
        worked_on(before, after, more_start, more_count),
{
    assert forall|address: u64|
        !(before.next_free <= address < after.next_free) && !(more_start <= address < more_start
            + more_count) implies #[trigger] after.cache.contains_key(address)
        == before.cache.contains_key(address) && (before.cache.contains_key(address)
        ==> after.cache[address] == before.cache[address]) by {
        assert(!(start <= address < start + count));
        assert(after.cache.contains_key(address) == before.cache.contains_key(address));
    }
}

/// Only the superblock was put back.
pub proof fn lemma_superblock_restored(
    before: VolumeModel,
    middle: VolumeModel,
    after: VolumeModel,
    start: int,
    count: nat,
)
    requires
        worked_on(before, middle, start, count),
        same_volume(before.superblock, after.superblock),
        after == (VolumeModel { superblock: after.superblock, ..middle }),
    ensures
        worked_on(before, after, start, count),
{
    assert forall|address: u64|
        !(before.next_free <= address < after.next_free) && !(start <= address < start
            + count) implies #[trigger] after.cache.contains_key(address)
        == before.cache.contains_key(address) && (before.cache.contains_key(address)
        ==> after.cache[address] == before.cache[address]) by {
        assert(middle.cache.contains_key(address) == before.cache.contains_key(address));
    }
}

/// New tree nodes were written, and nothing else.
pub open spec fn nodes_added(before: VolumeModel, after: VolumeModel) -> bool {
    &&& same_session(before, after)
    &&& before.next_free <= after.next_free <= before.node_area_end()
    &&& store::cache_valid(after.cache)
    &&& store::cow_frame(
        before.cache,
        after.cache,
        before.next_free as int,
        after.next_free as int,
    )
}

/// New tree nodes were written by the running transaction, and nothing else.
pub open spec fn nodes_written(before: VolumeModel, after: VolumeModel) -> bool {
    &&& nodes_added(before, after)
    &&& tree::extends(before.superseded, after.superseded)
    &&& store::stamped(
        after.cache,
        before.next_free as int,
        after.next_free as int,
        before.next_transaction,
    )
}

/// The blocks at the addresses `start .. end` hold nodes that the transaction
/// `generation` wrote.
#[verifier::opaque]
pub open spec fn nodes_stamped(
    blocks: Map<u64, Seq<u8>>,
    start: int,
    end: int,
    generation: u64,
) -> bool {
    forall|address: u64|
        start <= address < end ==> #[trigger] blocks.contains_key(address) && node::generation_of(
            blocks[address],
        ) == generation
}

pub broadcast proof fn lemma_nodes_stamped_none(
    blocks: Map<u64, Seq<u8>>,
    start: int,
    generation: u64,
)
    ensures
        #[trigger] nodes_stamped(blocks, start, start, generation),
{
    reveal(nodes_stamped);
}

/// The nodes in the cache are those that the volume sees.
pub proof fn lemma_cached_nodes_stamped(volume: VolumeModel, start: int, generation: u64)
    requires
        store::stamped(volume.cache, start, volume.next_free as int, generation),
    ensures
        nodes_stamped(volume.blocks(), start, volume.next_free as int, generation),
{
    reveal(store::stamped);
    reveal(nodes_stamped);
    assert forall|address: u64|
        start <= address < volume.next_free implies #[trigger] volume.blocks().contains_key(
        address,
    ) && node::generation_of(volume.blocks()[address]) == generation by {
        assert(volume.cache.contains_key(address));
    }
}

/// No tree node was overwritten: all blocks of the node area that were in use hold
/// what they held. Those that were put to use hold nodes that the running
/// transaction wrote.
pub open spec fn nodes_kept(before: VolumeModel, after: VolumeModel) -> bool {
    &&& before.next_free <= after.next_free
    &&& tree::extends(before.superseded, after.superseded)
    &&& model::agree(before.blocks(), after.blocks(), 0, before.next_free as int)
    &&& nodes_stamped(
        after.blocks(),
        before.next_free as int,
        after.next_free as int,
        before.next_transaction,
    )
}

pub proof fn lemma_nodes_kept(before: VolumeModel, after: VolumeModel)
    requires
        nodes_written(before, after),
    ensures
        nodes_kept(before, after),
{
    model::lemma_cow_frame_agrees(
        before.disk,
        before.cache,
        after.cache,
        before.next_free as int,
        after.next_free as int,
    );
    assert(model::agree(before.blocks(), after.blocks(), 0, before.next_free as int));
    lemma_cached_nodes_stamped(after, before.next_free as int, before.next_transaction);
}

/// A volume keeps its own nodes.
pub proof fn lemma_nodes_kept_by_itself(volume: VolumeModel)
    ensures
        nodes_kept(volume, volume),
{
    reveal(nodes_stamped);
}

/// A tree of the volume took the place of another one and gained at most `more`
/// nodes of any level.
pub open spec fn tree_gains(
    before: VolumeModel,
    root: u64,
    after: VolumeModel,
    new_root: u64,
    more: nat,
) -> bool {
    fanout::gains(
        before.blocks(),
        root,
        after.blocks(),
        new_root,
        before.next_free as int,
        after.next_free as int,
        more,
    )
}

/// The trees of the volume gained at most so many nodes of any level: the tree of
/// the files, that of the free extents and that of the checksums.
pub open spec fn trees_gain(
    before: VolumeModel,
    after: VolumeModel,
    records: nat,
    extents: nat,
    checksums: nat,
) -> bool {
    &&& tree_gains(
        before,
        before.superblock.inode_tree_root_block,
        after,
        after.superblock.inode_tree_root_block,
        records,
    )
    &&& tree_gains(
        before,
        before.superblock.free_extent_tree_root_block,
        after,
        after.superblock.free_extent_tree_root_block,
        extents,
    )
    &&& tree_gains(
        before,
        before.superblock.checksum_tree_root_block,
        after,
        after.superblock.checksum_tree_root_block,
        checksums,
    )
}

/// Trees that stay gain nothing, whatever the others gain.
pub proof fn lemma_trees_gain(
    before: VolumeModel,
    after: VolumeModel,
    records: nat,
    extents: nat,
    checksums: nat,
)
    requires
        nodes_kept(before, after),
        records == 0 && after.superblock.inode_tree_root_block
            == before.superblock.inode_tree_root_block || tree_gains(
            before,
            before.superblock.inode_tree_root_block,
            after,
            after.superblock.inode_tree_root_block,
            records,
        ),
        extents == 0 && after.superblock.free_extent_tree_root_block
            == before.superblock.free_extent_tree_root_block || tree_gains(
            before,
            before.superblock.free_extent_tree_root_block,
            after,
            after.superblock.free_extent_tree_root_block,
            extents,
        ),
        checksums == 0 && after.superblock.checksum_tree_root_block
            == before.superblock.checksum_tree_root_block || tree_gains(
            before,
            before.superblock.checksum_tree_root_block,
            after,
            after.superblock.checksum_tree_root_block,
            checksums,
        ),
    ensures
        trees_gain(before, after, records, extents, checksums),
{
    lemma_kept_tree_gains_nothing(before, after, before.superblock.inode_tree_root_block);
    lemma_kept_tree_gains_nothing(before, after, before.superblock.free_extent_tree_root_block);
    lemma_kept_tree_gains_nothing(before, after, before.superblock.checksum_tree_root_block);
}

pub proof fn lemma_trees_gain_join(
    first: VolumeModel,
    second: VolumeModel,
    third: VolumeModel,
    records: nat,
    extents: nat,
    checksums: nat,
    more_records: nat,
    more_extents: nat,
    more_checksums: nat,
)
    requires
        trees_gain(first, second, records, extents, checksums),
        trees_gain(second, third, more_records, more_extents, more_checksums),
    ensures
        trees_gain(
            first,
            third,
            records + more_records,
            extents + more_extents,
            checksums + more_checksums,
        ),
{
    fanout::lemma_gains_join(
        first.blocks(),
        first.superblock.inode_tree_root_block,
        second.blocks(),
        second.superblock.inode_tree_root_block,
        third.blocks(),
        third.superblock.inode_tree_root_block,
        first.next_free as int,
        second.next_free as int,
        third.next_free as int,
        records,
        more_records,
    );
    fanout::lemma_gains_join(
        first.blocks(),
        first.superblock.free_extent_tree_root_block,
        second.blocks(),
        second.superblock.free_extent_tree_root_block,
        third.blocks(),
        third.superblock.free_extent_tree_root_block,
        first.next_free as int,
        second.next_free as int,
        third.next_free as int,
        extents,
        more_extents,
    );
    fanout::lemma_gains_join(
        first.blocks(),
        first.superblock.checksum_tree_root_block,
        second.blocks(),
        second.superblock.checksum_tree_root_block,
        third.blocks(),
        third.superblock.checksum_tree_root_block,
        first.next_free as int,
        second.next_free as int,
        third.next_free as int,
        checksums,
        more_checksums,
    );
}

/// The tree has gained at most `insertions` nodes since it had the level `base`.
pub open spec fn tree_grown(
    volume: VolumeModel,
    root: u64,
    base: nat,
    insertions: nat,
) -> bool {
    fanout::grown_from(volume.blocks(), root, base, volume.next_free as int, insertions)
}

/// A tree that stays gains nothing.
pub proof fn lemma_kept_tree_gains_nothing(before: VolumeModel, after: VolumeModel, root: u64)
    requires
        nodes_kept(before, after),
    ensures
        tree_gains(before, root, after, root, 0),
{
    fanout::lemma_gains_stay(
        before.blocks(),
        after.blocks(),
        root,
        before.next_free as int,
        after.next_free as int,
    );
}

/// The level of a tree that gained some nodes.
pub proof fn lemma_gained_level(
    before: VolumeModel,
    root: u64,
    after: VolumeModel,
    new_root: u64,
    base: nat,
    insertions: nat,
    more: nat,
)
    requires
        tree_grown(before, root, base, insertions),
        tree_gains(before, root, after, new_root, more),
        after.laid_out(),
        after.tree_ready(new_root),
    ensures
        tree_grown(after, new_root, base, insertions + more),
        tree::root_level(after.blocks(), new_root) <= tree::level_bound(base, insertions + more),
{
    fanout::lemma_gains(
        before.blocks(),
        root,
        after.blocks(),
        new_root,
        before.next_free as int,
        after.next_free as int,
        more,
        base,
        insertions,
    );
    lemma_tree_level(after, new_root, base, insertions + more);
}

/// The level of a tree that has grown.
pub proof fn lemma_tree_level(volume: VolumeModel, root: u64, base: nat, insertions: nat)
    requires
        volume.laid_out(),
        volume.tree_ready(root),
        tree_grown(volume, root, base, insertions),
    ensures
        tree::root_level(volume.blocks(), root) <= tree::level_bound(base, insertions),
{
    lemma_root_present(volume, root);
    fanout::lemma_grown_level(
        volume.blocks(),
        root,
        base,
        volume.next_free as int,
        insertions,
    );
}

pub proof fn lemma_nodes_kept_joins(first: VolumeModel, second: VolumeModel, third: VolumeModel)
    requires
        nodes_kept(first, second),
        nodes_kept(second, third),
        first.next_transaction == second.next_transaction,
    ensures
        nodes_kept(first, third),
{
    let next = first.next_free as int;
    assert forall|address: u64|
        address < next implies #[trigger] first.blocks().contains_key(address)
        == third.blocks().contains_key(address) && (first.blocks().contains_key(address)
        ==> first.blocks()[address] == third.blocks()[address]) by {
        assert(first.blocks().contains_key(address) == second.blocks().contains_key(address));
        assert(second.blocks().contains_key(address) == third.blocks().contains_key(address));
    }
    reveal(nodes_stamped);
    assert forall|address: u64|
        next <= address < third.next_free implies #[trigger] third.blocks().contains_key(address)
        && node::generation_of(third.blocks()[address]) == first.next_transaction by {
        if address < second.next_free {
            assert(second.blocks().contains_key(address));
            assert(second.blocks().contains_key(address) == third.blocks().contains_key(address));
        }
    }
}

pub proof fn lemma_area_bounds(total: u64)
    requires
        total >= superblock::data_area_start(total) + 13,
    ensures
        259 <= superblock::data_area_start(total) <= 16_387,
        superblock::data_area_start(total) + 9 <= state::node_area_end(total) < total,
        2 * state::node_area_end(total) <= total + 16_392,
        state::node_area_end(total) + 5000 <= u64::MAX,
{
}

/// What new tree nodes leave as it is.
pub proof fn lemma_nodes_added(before: VolumeModel, after: VolumeModel)
    requires
        before.laid_out(),
        nodes_added(before, after),
    ensures
        after.laid_out(),
        after.state().data == before.state().data,
        after.state().total == before.state().total,
        after.node_area_end() == before.node_area_end(),
        after.node_area_start() == before.node_area_start(),
        forall|root: u64| #[trigger]
            before.tree_ready(root) ==> after.tree_ready(root) && model::tree_map(
                after.blocks(),
                root,
            ) == model::tree_map(before.blocks(), root) && tree::root_level(after.blocks(), root)
                == tree::root_level(before.blocks(), root),
{
    lemma_area_bounds(before.superblock.total_block_count);
    assert forall|address: u64| #[trigger] after.cache.contains_key(address) implies
        after.node_area_start() <= address < after.superblock.total_block_count by {
        if !(before.next_free <= address < after.next_free) {
            assert(before.cache.contains_key(address));
        }
    }
    assert forall|address: u64| before.node_area_end() <= address implies #[trigger] after.blocks().contains_key(
        address,
    ) == before.blocks().contains_key(address) && (before.blocks().contains_key(address)
        ==> after.blocks()[address] == before.blocks()[address]) by {
        assert(after.cache.contains_key(address) == before.cache.contains_key(address));
    }
    assert(after.state().data =~= before.state().data);
    assert forall|root: u64| #[trigger] before.tree_ready(root) implies after.tree_ready(root)
        && model::tree_map(after.blocks(), root) == model::tree_map(before.blocks(), root)
        && tree::root_level(after.blocks(), root) == tree::root_level(before.blocks(), root) by {
        tree::lemma_tree_untouched(
            before.disk,
            before.cache,
            after.cache,
            root,
            before.node_area_start(),
            before.next_free as int,
            after.next_free as int,
        );
    }
}

/// Where work is given up and the superblock is put back, the volume is in order and
/// holds the same files: only new nodes that no tree leads to, and data in blocks
/// that no file uses, are left of it.
pub proof fn lemma_work_given_up(
    before: VolumeModel,
    after: VolumeModel,
    first: int,
    count: nat,
)
    requires
        before.in_order(),
        worked_on(before, after, first, count),
        after.superblock == before.superblock,
        after.next_free <= before.node_area_end(),
        state::spare_blocks(before.state(), first, count),
        count > 0 ==> before.node_area_end() <= first && first + count
            <= before.superblock.total_block_count,
    ensures
        after.in_order(),
        after.state() == (VolumeState { data: after.state().data, ..before.state() }),
        state::files_kept(before.state(), after.state()),
        count == 0 ==> after.state() == before.state(),
{
    lemma_area_bounds(before.superblock.total_block_count);
    let start = before.node_area_start();
    let next = before.next_free as int;
    let new_next = after.next_free as int;
    let roots = before.superblock;
    assert forall|address: u64| #[trigger] after.cache.contains_key(address) implies
        after.node_area_start() <= address < after.superblock.total_block_count by {
        if !(next <= address < new_next) && !(first <= address < first + count) {
            assert(before.cache.contains_key(address));
        }
    }
    assert(model::agree(before.blocks(), after.blocks(), start, next)) by {
        assert forall|address: u64|
            start <= address < next implies #[trigger] before.blocks().contains_key(address)
            == after.blocks().contains_key(address) && (before.blocks().contains_key(address)
            ==> before.blocks()[address] == after.blocks()[address]) by {
            assert(after.cache.contains_key(address) == before.cache.contains_key(address));
        }
    }
    model::lemma_tree_agrees(
        before.blocks(),
        after.blocks(),
        roots.inode_tree_root_block,
        start,
        next,
        new_next,
    );
    model::lemma_tree_agrees(
        before.blocks(),
        after.blocks(),
        roots.free_extent_tree_root_block,
        start,
        next,
        new_next,
    );
    model::lemma_tree_agrees(
        before.blocks(),
        after.blocks(),
        roots.checksum_tree_root_block,
        start,
        next,
        new_next,
    );
    assert forall|address: u64| #[trigger]
        before.state().is_data_block(address) implies after.state().data.contains_key(address)
        && after.state().data[address].len() == 4096 && (first <= address < first + count
        || after.state().data[address] == before.state().data[address]) by {
        assert(before.state().data.contains_key(address));
        assert(before.state().data[address].len() == 4096);
        if !(first <= address < first + count) {
            assert(after.cache.contains_key(address) == before.cache.contains_key(address));
        } else if after.cache.contains_key(address) {
            assert(after.cache[address]@.len() == 4096);
        }
    }
    state::lemma_spare_blocks_changed(before.state(), after.state(), first, count);
    if count == 0 {
        assert(after.state().data =~= before.state().data) by {
            assert forall|address: u64| before.node_area_end() <= address implies #[trigger] after.blocks().contains_key(
                address,
            ) == before.blocks().contains_key(address) && (before.blocks().contains_key(address)
                ==> after.blocks()[address] == before.blocks()[address]) by {
                assert(after.cache.contains_key(address) == before.cache.contains_key(address));
            }
        }
    }
}

/// A record of the inode tree was added, replaced or removed.
pub proof fn lemma_inode_tree_changed(
    before: VolumeModel,
    after: VolumeModel,
    key: BafsKey,
    change: Option<Seq<u8>>,
)
    requires
        before.laid_out(),
        before.trees_ready(),
        nodes_added(before, after),
        tree::tree_replaced(
            before.disk,
            before.cache,
            after.cache,
            before.superblock.inode_tree_root_block,
            after.superblock.inode_tree_root_block,
            key,
            change,
            before.next_free as int,
            after.next_free as int,
        ),
        change matches Some(value) ==> value.len() <= tree::max_value_size(),
        after.superblock.free_extent_tree_root_block
            == before.superblock.free_extent_tree_root_block,
        after.superblock.checksum_tree_root_block == before.superblock.checksum_tree_root_block,
    ensures
        after.laid_out(),
        after.trees_ready(),
        after.state() == (VolumeState {
            inode_count: after.superblock.allocated_inode_count,
            inodes: match change {
                Some(value) => before.state().inodes.insert(key, value),
                None => before.state().inodes.remove(key),
            },
            ..before.state()
        }),
{
    lemma_nodes_added(before, after);
    tree::lemma_tree_stays_ready(
        before.disk,
        before.cache,
        after.cache,
        before.superblock.inode_tree_root_block,
        after.superblock.inode_tree_root_block,
        key,
        change,
        before.node_area_start(),
        before.next_free as int,
        after.next_free as int,
    );
    assert(before.tree_ready(before.superblock.free_extent_tree_root_block));
    assert(before.tree_ready(before.superblock.checksum_tree_root_block));
}

/// The checksum of a data block was recorded.
pub proof fn lemma_checksum_tree_changed(
    before: VolumeModel,
    after: VolumeModel,
    key: BafsKey,
    value: Seq<u8>,
)
    requires
        before.laid_out(),
        before.trees_ready(),
        nodes_added(before, after),
        tree::tree_replaced(
            before.disk,
            before.cache,
            after.cache,
            before.superblock.checksum_tree_root_block,
            after.superblock.checksum_tree_root_block,
            key,
            Some(value),
            before.next_free as int,
            after.next_free as int,
        ),
        value.len() <= tree::max_value_size(),
        after.superblock.free_extent_tree_root_block
            == before.superblock.free_extent_tree_root_block,
        after.superblock.inode_tree_root_block == before.superblock.inode_tree_root_block,
    ensures
        after.laid_out(),
        after.trees_ready(),
        after.state() == (VolumeState {
            inode_count: after.superblock.allocated_inode_count,
            checksums: before.state().checksums.insert(key, value),
            ..before.state()
        }),
{
    lemma_nodes_added(before, after);
    tree::lemma_tree_stays_ready(
        before.disk,
        before.cache,
        after.cache,
        before.superblock.checksum_tree_root_block,
        after.superblock.checksum_tree_root_block,
        key,
        Some(value),
        before.node_area_start(),
        before.next_free as int,
        after.next_free as int,
    );
    assert(before.tree_ready(before.superblock.free_extent_tree_root_block));
    assert(before.tree_ready(before.superblock.inode_tree_root_block));
}

/// The tree of free extents was changed.
pub proof fn lemma_free_tree_changed(before: VolumeModel, after: VolumeModel)
    requires
        before.laid_out(),
        before.trees_ready(),
        nodes_added(before, after),
        after.tree_ready(after.superblock.free_extent_tree_root_block),
        after.superblock.checksum_tree_root_block == before.superblock.checksum_tree_root_block,
        after.superblock.inode_tree_root_block == before.superblock.inode_tree_root_block,
    ensures
        after.laid_out(),
        after.trees_ready(),
        after.state() == (VolumeState {
            inode_count: after.superblock.allocated_inode_count,
            free: model::tree_map(after.blocks(), after.superblock.free_extent_tree_root_block),
            ..before.state()
        }),
{
    lemma_nodes_added(before, after);
    assert(before.tree_ready(before.superblock.checksum_tree_root_block));
    assert(before.tree_ready(before.superblock.inode_tree_root_block));
}

/// A data block was put into the cache.
pub proof fn lemma_data_block_cached(
    before: VolumeModel,
    after: VolumeModel,
    address: u64,
    block: Vec<u8>,
)
    requires
        before.laid_out(),
        before.trees_ready(),
        after == (VolumeModel { cache: before.cache.insert(address, block), ..before }),
        before.state().is_data_block(address),
        block@.len() == 4096,
    ensures
        after.laid_out(),
        after.trees_ready(),
        after.state() == (VolumeState {
            data: before.state().data.insert(address, block@),
            ..before.state()
        }),
        tree::root_level(after.blocks(), after.superblock.checksum_tree_root_block)
            == tree::root_level(before.blocks(), before.superblock.checksum_tree_root_block),
        tree::root_level(after.blocks(), after.superblock.inode_tree_root_block)
            == tree::root_level(before.blocks(), before.superblock.inode_tree_root_block),
        nodes_kept(before, after),
{
    reveal(nodes_stamped);
    lemma_area_bounds(before.superblock.total_block_count);
    let start = before.node_area_start();
    let next = before.next_free as int;
    assert(model::agree(before.blocks(), after.blocks(), 0, next)) by {
        assert forall|other: u64|
            other < next implies #[trigger] before.blocks().contains_key(other)
            == after.blocks().contains_key(other) && (before.blocks().contains_key(other)
            ==> before.blocks()[other] == after.blocks()[other]) by {
            assert(other != address);
        }
    }
    assert(model::agree(before.blocks(), after.blocks(), start, next));
    let roots = before.superblock;
    model::lemma_tree_agrees(
        before.blocks(),
        after.blocks(),
        roots.inode_tree_root_block,
        start,
        next,
        next,
    );
    model::lemma_tree_agrees(
        before.blocks(),
        after.blocks(),
        roots.free_extent_tree_root_block,
        start,
        next,
        next,
    );
    model::lemma_tree_agrees(
        before.blocks(),
        after.blocks(),
        roots.checksum_tree_root_block,
        start,
        next,
        next,
    );
    assert(after.state().data =~= before.state().data.insert(address, block@));
    assert forall|other: u64| #[trigger] after.cache.contains_key(other) implies
        after.node_area_start() <= other < after.superblock.total_block_count by {
        if other != address {
            assert(before.cache.contains_key(other));
        }
    }
}

/// A volume as it is right after it was mounted.
pub open spec fn mounted_model(disk: Seq<u8>, found: BafsSuperblock) -> VolumeModel {
    VolumeModel {
        disk,
        superblock: found,
        cache: Map::empty(),
        next_free: found.next_cow_block_address,
        next_transaction: (found.last_committed_transaction_id + 1) as u64,
        superseded: Seq::empty(),
    }
}

/// Writing the cached blocks to their places keeps what the volume holds.
pub proof fn lemma_blocks_in_place(before: VolumeModel, after: VolumeModel)
    requires
        before.in_order(),
        after.disk.len() == before.disk.len(),
        after.cache == Map::<u64, Vec<u8>>::empty(),
        after.next_free == before.next_free,
        same_volume(
            before.superblock,
            BafsSuperblock {
                last_committed_transaction_id: before.superblock.last_committed_transaction_id,
                next_cow_block_address: before.superblock.next_cow_block_address,
                superblock_checksum: before.superblock.superblock_checksum,
                ..after.superblock
            },
        ),
        after.superblock.inode_tree_root_block == before.superblock.inode_tree_root_block,
        after.superblock.free_extent_tree_root_block
            == before.superblock.free_extent_tree_root_block,
        after.superblock.checksum_tree_root_block == before.superblock.checksum_tree_root_block,
        after.superblock.allocated_inode_count == before.superblock.allocated_inode_count,
        after.superblock.last_committed_transaction_id < after.next_transaction,
        forall|address: u64|
            before.node_area_start() <= address < before.superblock.total_block_count
                ==> #[trigger] block_io::disk_block(after.disk, address)
                == before.blocks()[address],
    ensures
        after.in_order(),
        after.state() == before.state(),
{
    let start = before.node_area_start();
    let next = before.next_free as int;
    let total = before.superblock.total_block_count;
    lemma_area_bounds(total);
    assert(after.superblock.total_block_count == total);
    assert forall|address: u64| start <= address < total implies #[trigger] after.blocks().contains_key(
        address,
    ) && before.blocks().contains_key(address) && after.blocks()[address]
        == before.blocks()[address] by {
        assert(block_io::disk_block(after.disk, address) == before.blocks()[address]);
    }
    assert(model::agree(before.blocks(), after.blocks(), start, next)) by {
        assert forall|address: u64|
            start <= address < next implies #[trigger] before.blocks().contains_key(address)
            == after.blocks().contains_key(address) && (before.blocks().contains_key(address)
            ==> before.blocks()[address] == after.blocks()[address]) by {
            assert(after.blocks().contains_key(address));
        }
    }
    let roots = before.superblock;
    model::lemma_tree_agrees(
        before.blocks(),
        after.blocks(),
        roots.inode_tree_root_block,
        start,
        next,
        next,
    );
    model::lemma_tree_agrees(
        before.blocks(),
        after.blocks(),
        roots.free_extent_tree_root_block,
        start,
        next,
        next,
    );
    model::lemma_tree_agrees(
        before.blocks(),
        after.blocks(),
        roots.checksum_tree_root_block,
        start,
        next,
        next,
    );
    assert(after.state().data =~= before.state().data) by {
        assert forall|address: u64| before.node_area_end() <= address < total implies
            #[trigger] after.blocks().contains_key(address) by {}
    }
}

/// The root of a tree in order can be read.
pub proof fn lemma_root_present(volume: VolumeModel, root: u64)
    requires
        volume.laid_out(),
        volume.tree_ready(root),
    ensures
        model::checked_node(volume.blocks(), root, model::root_span()) is Ok,
        volume.blocks()[root].len() == 4096,
        fanout::grown_from(
            volume.blocks(),
            root,
            tree::root_level(volume.blocks(), root),
            volume.next_free as int,
            0,
        ),
{
    let key = BafsKey { object_id: 0, item_type: 0, offset: 0 };
    assert(model::tree_get(volume.blocks(), root, key) is Ok);
    assert(volume.blocks().contains_key(root));
    if volume.cache.contains_key(root) {
        assert(volume.cache[root]@.len() == 4096);
    } else {
        assert(block_io::block_on_disk(volume.disk, root));
    }
    fanout::lemma_grown_from_itself(volume.blocks(), root, volume.next_free as int);
}

/// What a lookup in one of the volume's trees gives.
pub proof fn lemma_tree_lookup(volume: VolumeModel, root: u64, key: BafsKey)
    requires
        volume.tree_ready(root),
    ensures
        model::tree_get(volume.blocks(), root, key) == Ok::<Option<Seq<u8>>, BafsError>(
            if model::tree_map(volume.blocks(), root).contains_key(key) {
                Some(model::tree_map(volume.blocks(), root)[key])
            } else {
                None
            },
        ),
{
    assert(model::tree_get(volume.blocks(), root, key) is Ok);
}

} // verus!
