//! How much a volume takes: where a load of files fits, every creation, every write
//! and the commit of them succeed, in whatever order the calls come.

use vstd::prelude::*;
use vstd::utf8;
use crate::block_io;
use crate::block_io::BlockWrite;
use crate::btree::fanout;
use crate::btree::key::BafsKey;
use crate::btree::node::LeafEntry;
use crate::btree::tree;
use crate::dir;
use crate::error::BafsError;
use crate::extent;
use crate::extent::BafsFreeExtent;
use crate::journal;
use crate::state;
use crate::state::VolumeState;
use super::durability;
use super::model as volume_model;
use super::mounting;
use super::naming;
use super::naming::NewChild;
use super::writing;
use super::{inode_in, VolumeModel, TREE_LEVEL_LIMIT};

verus! {

/// What is put on a volume: how many files and directories are created, how many
/// writes there are, and how many data blocks these take.
pub struct Load {
    pub creations: nat,
    pub writes: nat,
    pub blocks: nat,
}

impl Load {
    /// No more than another load.
    pub open spec fn within(self, other: Load) -> bool {
        &&& self.creations <= other.creations
        &&& self.writes <= other.writes
        &&& self.blocks <= other.blocks
    }

    /// One creation more.
    pub open spec fn and_creation(self) -> Load {
        Load { creations: self.creations + 1, ..self }
    }

    /// One write more, of `count` blocks.
    pub open spec fn and_write(self, count: nat) -> Load {
        Load { writes: self.writes + 1, blocks: self.blocks + count, ..self }
    }
}

/// Nothing.
pub open spec fn no_load() -> Load {
    Load { creations: 0, writes: 0, blocks: 0 }
}

/// How high the trees of a volume are: that of the files, that of the free extents
/// and that of the checksums.
pub struct Heights {
    pub inodes: nat,
    pub free_extents: nat,
    pub checksums: nat,
}

/// How high the trees of the volume are.
pub open spec fn heights_of(volume: VolumeModel) -> Heights {
    Heights {
        inodes: tree::root_level(volume.blocks(), volume.superblock.inode_tree_root_block),
        free_extents: tree::root_level(
            volume.blocks(),
            volume.superblock.free_extent_tree_root_block,
        ),
        checksums: tree::root_level(volume.blocks(), volume.superblock.checksum_tree_root_block),
    }
}

impl Heights {
    /// How high the trees get at most under a load: every creation and every write
    /// puts two records into the tree of the files.
    pub open spec fn under(self, load: Load) -> Heights {
        Heights {
            inodes: tree::level_bound(self.inodes, 2 * (load.creations + load.writes)),
            free_extents: tree::level_bound(self.free_extents, load.writes),
            checksums: tree::level_bound(self.checksums, load.blocks),
        }
    }

    /// None of the trees is too high.
    pub open spec fn allowed(self) -> bool {
        &&& self.inodes < TREE_LEVEL_LIMIT
        &&& self.free_extents < TREE_LEVEL_LIMIT
        &&& self.checksums < TREE_LEVEL_LIMIT
    }

    /// At most so many tree nodes are written for a load while the trees are no
    /// higher.
    pub open spec fn cost(self, load: Load) -> nat {
        (load.creations + load.writes) * (4 * self.inodes + 8) + load.writes * (3
            * self.free_extents + 4) + load.blocks * (2 * self.checksums + 3)
    }
}

/// The load fits on the volume: there are inode numbers, a run of free blocks and
/// room for the tree nodes.
pub open spec fn fits(volume: VolumeModel, load: Load) -> bool {
    let heights = heights_of(volume).under(load);
    &&& volume.in_order()
    &&& heights.allowed()
    &&& volume.next_free + heights.cost(load) <= volume.node_area_end()
    &&& volume.state().inode_count + load.creations < u64::MAX
    &&& load.blocks > 0 ==> load.blocks <= u64::MAX && state::has_free_run(
        volume.state().free,
        load.blocks as u64,
    )
}

/// The blocks of the load, with those that were written before, fit into the journal.
pub open spec fn fits_one_commit(volume: VolumeModel, load: Load) -> bool {
    &&& volume.cache.dom().finite()
    &&& !journal::commit_too_large(
        volume.superblock,
        volume.cache.dom().len() + heights_of(volume).under(load).cost(load) + load.blocks,
    )
}

/// The volume, once a part of the load was put on it.
pub open spec fn carries(origin: VolumeModel, volume: VolumeModel, load: Load, part: Load) -> bool {
    &&& part.within(load)
    &&& volume.in_order()
    &&& volume_model::same_session(origin, volume)
    &&& volume_model::trees_gain(
        origin,
        volume,
        2 * (part.creations + part.writes),
        part.writes,
        part.blocks,
    )
    &&& origin.next_free <= volume.next_free <= origin.next_free + heights_of(origin).under(
        load,
    ).cost(part)
    &&& volume.state().inode_count == origin.state().inode_count + part.creations
    &&& load.blocks > part.blocks ==> state::has_free_run(
        volume.state().free,
        (load.blocks - part.blocks) as u64,
    )
    &&& origin.cache.dom().finite() ==> {
        &&& volume.cache.dom().finite()
        &&& volume.cache.dom().len() <= origin.cache.dom().len() + (volume.next_free
            - origin.next_free) + part.blocks
    }
}

/// A volume carries nothing yet of a load that fits.
pub proof fn lemma_carries_nothing(volume: VolumeModel, load: Load)
    requires
        fits(volume, load),
    ensures
        carries(volume, volume, load, no_load()),
{
    volume_model::lemma_nodes_kept_by_itself(volume);
    volume_model::lemma_trees_gain(volume, volume, 0, 0, 0);
}

/// What more of a load costs.
proof fn lemma_cost(heights: Heights, load: Load, part: Load, count: nat)
    requires
        part.within(load),
    ensures
        part.creations < load.creations ==> heights.cost(part.and_creation()) == heights.cost(part)
            + 4 * heights.inodes + 8 <= heights.cost(load),
        part.writes < load.writes && part.blocks + count <= load.blocks ==> heights.cost(
            part.and_write(count),
        ) == heights.cost(part) + 4 * heights.inodes + 8 + 3 * heights.free_extents + 4 + count * (
        2 * heights.checksums + 3) <= heights.cost(load),
{
    let per_call = 4 * heights.inodes + 8;
    let per_write = 3 * heights.free_extents + 4;
    let per_block = 2 * heights.checksums + 3;
    let calls = part.creations + part.writes;
    assert((calls + 1) * per_call == calls * per_call + per_call) by (nonlinear_arith);
    assert((part.writes + 1) * per_write == part.writes * per_write + per_write)
        by (nonlinear_arith);
    assert((part.blocks + count) * per_block == part.blocks * per_block + count * per_block)
        by (nonlinear_arith);
    let all_calls = load.creations + load.writes;
    if part.creations < load.creations {
        assert((calls + 1) * per_call <= all_calls * per_call) by (nonlinear_arith)
            requires
                calls + 1 <= all_calls,
        ;
        assert(part.writes * per_write <= load.writes * per_write) by (nonlinear_arith)
            requires
                part.writes <= load.writes,
        ;
        assert(part.blocks * per_block <= load.blocks * per_block) by (nonlinear_arith)
            requires
                part.blocks <= load.blocks,
        ;
    }
    if part.writes < load.writes && part.blocks + count <= load.blocks {
        assert((calls + 1) * per_call <= all_calls * per_call) by (nonlinear_arith)
            requires
                calls + 1 <= all_calls,
        ;
        assert((part.writes + 1) * per_write <= load.writes * per_write) by (nonlinear_arith)
            requires
                part.writes + 1 <= load.writes,
        ;
        assert((part.blocks + count) * per_block <= load.blocks * per_block) by (nonlinear_arith)
            requires
                part.blocks + count <= load.blocks,
        ;
    }
}

/// How high the trees are while a load is put on a volume.
proof fn lemma_heights(origin: VolumeModel, volume: VolumeModel, load: Load, part: Load)
    requires
        fits(origin, load),
        carries(origin, volume, load, part),
    ensures
        ({
            let heights = heights_of(origin).under(load);
            &&& heights_of(volume).inodes <= heights.inodes
            &&& heights_of(volume).free_extents <= heights.free_extents
            &&& heights_of(volume).checksums <= heights.checksums
        }),
        volume_model::tree_grown(
            volume,
            volume.superblock.checksum_tree_root_block,
            heights_of(origin).checksums,
            part.blocks,
        ),
{
    let start = heights_of(origin);
    let roots = origin.superblock;
    let new_roots = volume.superblock;
    volume_model::lemma_root_present(origin, roots.inode_tree_root_block);
    volume_model::lemma_root_present(origin, roots.free_extent_tree_root_block);
    volume_model::lemma_root_present(origin, roots.checksum_tree_root_block);
    volume_model::lemma_gained_level(
        origin,
        roots.inode_tree_root_block,
        volume,
        new_roots.inode_tree_root_block,
        start.inodes,
        0,
        2 * (part.creations + part.writes),
    );
    volume_model::lemma_gained_level(
        origin,
        roots.free_extent_tree_root_block,
        volume,
        new_roots.free_extent_tree_root_block,
        start.free_extents,
        0,
        part.writes,
    );
    volume_model::lemma_gained_level(
        origin,
        roots.checksum_tree_root_block,
        volume,
        new_roots.checksum_tree_root_block,
        start.checksums,
        0,
        part.blocks,
    );
    fanout::lemma_levels_gained_monotone(
        2 * (part.creations + part.writes),
        2 * (load.creations + load.writes),
    );
    fanout::lemma_levels_gained_monotone(part.writes, load.writes);
    fanout::lemma_levels_gained_monotone(part.blocks, load.blocks);
}

/// A creation that belongs to a load which fits succeeds, where nothing but want of
/// room could stand in its way: the parent is a directory that lacks the name, and
/// the directory record that takes the entry stays small.
#[verifier::spinoff_prover]
#[verifier::rlimit(40)]
pub proof fn law_creation_succeeds(
    origin: VolumeModel,
    load: Load,
    part: Load,
    volume: VolumeModel,
    created: VolumeModel,
    directory: u64,
    name: Seq<char>,
    child: NewChild,
    creation: Result<u64, BafsError>,
)
    requires
        fits(origin, load),
        carries(origin, volume, load, part),
        part.creations < load.creations,
        inode_in(volume, directory) is Ok,
        inode_in(volume, directory)->Ok_0.spec_is_directory(),
        0 < utf8::encode_utf8(name).len() <= 255,
        state::entry_of(volume.state(), directory, name) is None,
        naming::record_with_child(volume.state(), directory, name, child).len()
            <= tree::small_value_size(),
        volume_model::worked_on(volume, created, 0, 0),
        naming::create_outcome(volume, created, true, directory, name, child, creation),
    ensures
        creation == Ok::<u64, BafsError>((volume.state().inode_count + 1) as u64),
        carries(origin, created, load, part.and_creation()),
{
    let heights = heights_of(origin).under(load);
    let root = volume.superblock.inode_tree_root_block;
    let key = dir::entry_key(directory, name);
    lemma_heights(origin, volume, load, part);
    lemma_cost(heights, load, part, 0);
    volume_model::lemma_root_present(volume, root);
    volume_model::lemma_tree_lookup(volume, root, key);
    state::lemma_entry_of(volume.state(), directory, name);
    assert(naming::create_refusal(volume, directory, name) is None);
    assert(creation is Ok);
    volume_model::lemma_trees_gain_join(
        origin,
        volume,
        created,
        2 * (part.creations + part.writes),
        part.writes,
        part.blocks,
        2,
        0,
        0,
    );
    if origin.cache.dom().finite() {
        durability::law_cache_growth(volume, created, 0, 0);
    }
    assert(created.state().free == volume.state().free);
}

/// What is left of the free blocks where some are taken.
proof fn lemma_free_run_left(
    contents: VolumeState,
    item: LeafEntry,
    requested: u64,
    available: u64,
)
    requires
        contents.ok(),
        state::is_first_fit(contents.free, item, requested),
        0 < requested < available,
        state::has_free_run(contents.free, available),
    ensures
        state::has_free_run(
            state::with_blocks_taken(contents, item, requested).free,
            (available - requested) as u64,
        ),
{
    let after = state::with_blocks_taken(contents, item, requested);
    let left = (available - requested) as u64;
    let key = choose|key: BafsKey| #[trigger]
        contents.free.contains_key(key) && extent::run_at(contents.free, key).block_count
            >= available;
    state::lemma_take_blocks(contents, item, requested);
    let run = extent::free_extent_from(item.value);
    let start = (run.block_address + requested) as u64;
    let rest = BafsFreeExtent {
        block_address: start,
        block_count: (run.block_count - requested) as u64,
    };
    extent::law_free_extent_round_trip(rest);
    if key == item.key {
        assert(after.free.contains_key(extent::free_key(start)));
        assert(extent::run_at(after.free, extent::free_key(start)).block_count >= left);
    } else if run.block_count > requested && key == extent::free_key(start) {
        assert(contents.free.contains_key(item.key));
        assert(item.key.offset < key.offset);
    } else {
        assert(after.free.contains_key(key));
        assert(extent::run_at(after.free, key).block_count >= left);
    }
}

/// A write that belongs to a load which fits succeeds, where nothing but want of room
/// could stand in its way: the file is there.
#[verifier::spinoff_prover]
#[verifier::rlimit(60)]
pub proof fn law_write_succeeds(
    origin: VolumeModel,
    load: Load,
    part: Load,
    volume: VolumeModel,
    written: VolumeModel,
    first: int,
    number: u64,
    offset: u64,
    data: Seq<u8>,
    outcome: Result<usize, BafsError>,
)
    requires
        fits(origin, load),
        carries(origin, volume, load, part),
        part.writes < load.writes,
        part.blocks + block_io::blocks_for(data.len()) <= load.blocks,
        data.len() > 0,
        writing::write_refusal(volume, number, data.len()) is None,
        volume_model::worked_on(volume, written, first, block_io::blocks_for(data.len())),
        writing::write_outcome(volume, written, true, number, offset, data, outcome),
    ensures
        outcome is Ok,
        outcome->Ok_0 == data.len(),
        carries(origin, written, load, part.and_write(block_io::blocks_for(data.len()))),
{
    let count = block_io::blocks_for(data.len());
    let heights = heights_of(origin).under(load);
    lemma_heights(origin, volume, load, part);
    lemma_cost(heights, load, part, count);
    fanout::lemma_levels_gained_monotone(part.blocks + count, load.blocks);
    assert(writing::stays_below(volume, count, heights.checksums));
    assert(state::has_free_run(volume.state().free, count as u64)) by {
        let key = choose|key: BafsKey| #[trigger]
            volume.state().free.contains_key(key) && extent::run_at(
                volume.state().free,
                key,
            ).block_count >= load.blocks - part.blocks;
        assert(volume.state().free.contains_key(key));
    }
    assert(writing::room_below(volume, count, heights.checksums));
    assert(writing::room_for_write(volume, count));
    assert(outcome is Ok);
    volume_model::lemma_trees_gain_join(
        origin,
        volume,
        written,
        2 * (part.creations + part.writes),
        part.writes,
        part.blocks,
        2,
        1,
        count,
    );
    if origin.cache.dom().finite() {
        durability::law_cache_growth(volume, written, first, count);
    }
    let item = choose|item: LeafEntry| #[trigger]
        writing::file_written(
            volume.state(),
            written.state(),
            number,
            offset,
            data,
            volume.next_transaction,
            item,
        );
    let taken = state::with_blocks_taken(volume.state(), item, count as u64);
    state::lemma_take_blocks(volume.state(), item, count as u64);
    state::lemma_with_data(taken, item.key.offset, data, count, count);
    if load.blocks > part.blocks + count {
        lemma_free_run_left(
            volume.state(),
            item,
            count as u64,
            (load.blocks - part.blocks) as u64,
        );
    }
}

/// The commit of a load that fits succeeds.
pub proof fn law_commit_succeeds(
    origin: VolumeModel,
    load: Load,
    part: Load,
    volume: VolumeModel,
    after: VolumeModel,
    entries: Seq<BlockWrite>,
    result: Result<(), BafsError>,
)
    requires
        fits(origin, load),
        fits_one_commit(origin, load),
        carries(origin, volume, load, part),
        mounting::commit_of(volume, after, true, entries, result),
    ensures
        result is Ok,
{
    let heights = heights_of(origin).under(load);
    lemma_cost_within(heights, load, part);
    assert(mounting::fits_journal(volume));
    mounting::lemma_commit_succeeds(volume, after, entries, result);
}

/// A part of a load costs no more than the load.
pub proof fn lemma_cost_within(heights: Heights, load: Load, part: Load)
    requires
        part.within(load),
    ensures
        heights.cost(part) <= heights.cost(load),
{
    let calls = part.creations + part.writes;
    let all_calls = load.creations + load.writes;
    assert(calls * (4 * heights.inodes + 8) <= all_calls * (4 * heights.inodes + 8))
        by (nonlinear_arith)
        requires
            calls <= all_calls,
    ;
    assert(part.writes * (3 * heights.free_extents + 4) <= load.writes * (3
        * heights.free_extents + 4)) by (nonlinear_arith)
        requires
            part.writes <= load.writes,
    ;
    assert(part.blocks * (2 * heights.checksums + 3) <= load.blocks * (2 * heights.checksums + 3))
        by (nonlinear_arith)
        requires
            part.blocks <= load.blocks,
    ;
}

} // verus!
