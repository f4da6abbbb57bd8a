//! Creating and removing files and directories.

use vstd::prelude::*;
use crate::block_device::BlockDevice;
use crate::btree::key::BafsKey;
use crate::btree::model;
use crate::btree::store;
use crate::btree::tree;
use crate::dir;
use crate::dir::{EntryModel, CHILD_TYPE_DIRECTORY, CHILD_TYPE_REGULAR_FILE};
use crate::error::BafsError;
use crate::inode;
use crate::inode::BafsInode;
use crate::state;
use crate::state::VolumeState;
use crate::superblock::BafsSuperblock;
use super::model as volume_model;
use super::writing;
use super::writing::volume_write_inode;
use super::{
    check_room, inode_in, room_error, volume_read_inode, BafsVolume, VolumeModel,
};

verus! {

broadcast use {
    crate::btree::store::lemma_stamped_none,
    super::model::lemma_nodes_stamped_none,
};

/// The error with which creating something in a directory is refused.
pub open spec fn create_refusal(
    volume: VolumeModel,
    parent_inode_number: u64,
    name: Seq<char>,
) -> Option<BafsError> {
    match inode_in(volume, parent_inode_number) {
        Err(error) => Some(error),
        Ok(inode) => if !inode.spec_is_directory() {
            Some(BafsError::NotADirectory)
        } else {
            match room_error(volume, volume.superblock.inode_tree_root_block, 4, 8) {
                Some(error) => Some(error),
                None => if volume.superblock.allocated_inode_count == u64::MAX {
                    Some(BafsError::OutOfSpace)
                } else {
                    dir::create_entry_error(
                        model::tree_get(
                            volume.blocks(),
                            volume.superblock.inode_tree_root_block,
                            dir::entry_key(parent_inode_number, name),
                        ),
                        name,
                    )
                },
            }
        },
    }
}

/// What distinguishes a new file from a new directory.
pub struct NewChild {
    pub posix_mode: u32,
    pub hard_link_count: u32,
    pub child_type: u8,
}

/// A new regular file.
pub open spec fn new_file() -> NewChild {
    NewChild { posix_mode: 0o100644, hard_link_count: 1, child_type: CHILD_TYPE_REGULAR_FILE }
}

/// A new directory.
pub open spec fn new_directory() -> NewChild {
    NewChild { posix_mode: 0o040755, hard_link_count: 2, child_type: CHILD_TYPE_DIRECTORY }
}

/// A new directory or a new regular file.
pub open spec fn new_child(is_directory: bool) -> NewChild {
    if is_directory {
        new_directory()
    } else {
        new_file()
    }
}

/// A new inode was recorded, under the next number.
pub open spec fn inode_added(
    before: VolumeState,
    after: VolumeState,
    generation: u64,
    child: NewChild,
) -> bool {
    let number = (before.inode_count + 1) as u64;
    let key = inode::inode_key(number);
    let value = after.inodes[key];
    &&& after == state::with_record(state::with_inode_count(before, number), key, value)
    &&& inode::new_inode_record(
        value,
        number,
        generation,
        child.posix_mode,
        child.hard_link_count,
    )
}

/// The entry of a new child.
pub open spec fn child_entry(before: VolumeState, name: Seq<char>, child: NewChild) -> EntryModel {
    dir::new_entry(name, (before.inode_count + 1) as u64, child.child_type)
}

/// The directory record that a new child is entered into, with its entry.
pub open spec fn record_with_child(
    before: VolumeState,
    parent_inode_number: u64,
    name: Seq<char>,
    child: NewChild,
) -> Seq<u8> {
    dir::value_with_entry(
        state::record_of(before, dir::entry_key(parent_inode_number, name)),
        child_entry(before, name, child),
    )
}

/// What creating something in a directory leads to, where it is not refused from
/// the start: a new inode and its entry, or nothing at all.
pub open spec fn creation_outcome(
    before: VolumeState,
    after: VolumeState,
    reliable: bool,
    parent_inode_number: u64,
    name: Seq<char>,
    generation: u64,
    child: NewChild,
    result: Result<u64, BafsError>,
) -> bool {
    let number = (before.inode_count + 1) as u64;
    let key = dir::entry_key(parent_inode_number, name);
    match result {
        Ok(created) => {
            &&& created == number
            &&& state::entry_of(before, parent_inode_number, name) is None
            &&& dir::entry_ok(child_entry(before, name, child))
            &&& exists|middle: VolumeState| #[trigger]
                inode_added(before, middle, generation, child) && after == state::with_record(
                    middle,
                    key,
                    record_with_child(before, parent_inode_number, name, child),
                )
            &&& record_with_child(before, parent_inode_number, name, child).len()
                <= tree::max_value_size()
        },
        Err(error) => {
            &&& after == before
            &&& error == BafsError::InputOutputError && !reliable || error
                == BafsError::OutOfSpace && record_with_child(
                before,
                parent_inode_number,
                name,
                child,
            ).len() > tree::small_value_size()
        },
    }
}

/// The entry of a new child does not fit into the inode tree, once the child's
/// inode was recorded there: its leaf cannot be divided into two that hold it.
pub open spec fn entry_does_not_fit(
    before: VolumeModel,
    middle: VolumeModel,
    parent_inode_number: u64,
    name: Seq<char>,
    child: NewChild,
) -> bool {
    &&& middle.in_order()
    &&& inode_added(before.state(), middle.state(), before.next_transaction, child)
    &&& tree::insert_error(
        middle.blocks(),
        middle.superblock.inode_tree_root_block,
        dir::entry_key(parent_inode_number, name),
        record_with_child(before.state(), parent_inode_number, name, child),
    ) == Some(BafsError::InvalidArgument)
}

/// What was superseded where something was created: the nodes on the way to its
/// inode and then, in the tree with that inode, those on the way to its entry.
pub open spec fn paths_superseded(
    before: VolumeModel,
    middle: VolumeModel,
    after: VolumeModel,
    child: NewChild,
    number: u64,
    entry_key: BafsKey,
) -> bool {
    &&& inode_added(before.state(), middle.state(), before.next_transaction, child)
    &&& middle.superseded == before.superseded + writing::path_in_inode_tree(
        before,
        inode::inode_key(number),
    )
    &&& after.superseded == middle.superseded + writing::path_in_inode_tree(middle, entry_key)
}

/// How far a volume grows where something was created in a directory.
pub open spec fn grown_by_child(before: VolumeModel, after: VolumeModel) -> bool {
    let level = tree::root_level(before.blocks(), before.superblock.inode_tree_root_block);
    &&& after.superblock == (BafsSuperblock {
        inode_tree_root_block: after.superblock.inode_tree_root_block,
        allocated_inode_count: after.superblock.allocated_inode_count,
        ..before.superblock
    })
    &&& tree::root_level(after.blocks(), after.superblock.inode_tree_root_block) <= level + 2
    &&& volume_model::trees_gain(before, after, 2, 0, 0)
}

/// Creating something fails with the error with which its inode cannot be recorded:
/// that of a node on the way which cannot be read, or of a leaf that cannot be
/// divided.
pub open spec fn inode_error_returned(
    before: VolumeModel,
    child: NewChild,
    value: Seq<u8>,
    result: Result<u64, BafsError>,
) -> bool {
    let number = (before.superblock.allocated_inode_count + 1) as u64;
    &&& inode::new_inode_record(
        value,
        number,
        before.next_transaction,
        child.posix_mode,
        child.hard_link_count,
    )
    &&& tree::insert_error(
        before.blocks(),
        before.superblock.inode_tree_root_block,
        inode::inode_key(number),
        value,
    ) matches Some(error) ==> result == Err::<u64, BafsError>(error)
}

/// What creating something in a directory leads to.
pub open spec fn create_outcome(
    before: VolumeModel,
    after: VolumeModel,
    reliable: bool,
    parent_inode_number: u64,
    name: Seq<char>,
    child: NewChild,
    result: Result<u64, BafsError>,
) -> bool {
    match create_refusal(before, parent_inode_number, name) {
        Some(error) => {
            &&& result == Err::<u64, BafsError>(error) || result == Err::<u64, BafsError>(
                BafsError::InputOutputError,
            ) && !reliable
            &&& after == before
        },
        None => {
            &&& result is Err ==> after.superblock == before.superblock
            &&& result == Err::<u64, BafsError>(BafsError::InputOutputError) && !reliable || exists|
                value: Seq<u8>,
            | #[trigger]
                inode_error_returned(before, child, value, result)
            &&& before.in_order() ==> {
                &&& after.in_order()
                &&& volume_model::same_session(before, after)
                &&& volume_model::nodes_kept(before, after)
                &&& creation_outcome(
                    before.state(),
                    after.state(),
                    reliable,
                    parent_inode_number,
                    name,
                    before.next_transaction,
                    child,
                    result,
                )
                &&& after.next_free <= before.next_free + 4 * tree::root_level(
                    before.blocks(),
                    before.superblock.inode_tree_root_block,
                ) + 8
                &&& result is Ok ==> grown_by_child(before, after)
                &&& result matches Ok(number) ==> exists|middle: VolumeModel| #[trigger]
                    paths_superseded(
                        before,
                        middle,
                        after,
                        child,
                        number,
                        dir::entry_key(parent_inode_number, name),
                    )
                &&& result == Err::<u64, BafsError>(BafsError::OutOfSpace) ==> exists|
                    middle: VolumeModel,
                | #[trigger]
                    entry_does_not_fit(before, middle, parent_inode_number, name, child)
            }
        },
    }
}

/// Take the next inode number.
fn volume_allocate_inode_number<D: BlockDevice>(volume: &mut BafsVolume<D>) -> (inode_number: u64)
    requires
        old(volume).superblock.allocated_inode_count < u64::MAX,
    ensures
        inode_number == old(volume).superblock.allocated_inode_count + 1,
        *final(volume) == (BafsVolume {
            superblock: BafsSuperblock {
                allocated_inode_count: inode_number,
                ..old(volume).superblock
            },
            ..*old(volume)
        }),
{
    let inode_number: u64 = inode::allocate_next_inode_number(
        volume.superblock.allocated_inode_count,
    );
    volume.superblock.allocated_inode_count = inode_number;
    inode_number
}

/// Record a new inode under the next number.
#[verifier::spinoff_prover]
#[verifier::rlimit(40)]
fn add_inode<D: BlockDevice>(volume: &mut BafsVolume<D>, is_directory: bool) -> (result: Result<
    u64,
    BafsError,
>)
    requires
        store::cache_valid(old(volume).dirty_block_cache@),
        old(volume).superblock.allocated_inode_count < u64::MAX,
        old(volume).next_free_block + 512 <= u64::MAX,
    ensures
        final(volume).device == old(volume).device,
        volume_model::worked_on(old(volume)@, final(volume)@, 0, 0),
        final(volume).superblock.free_block_count == old(volume).superblock.free_block_count,
        final(volume).next_free_block <= old(volume).next_free_block + 2 * 255 + 3,
        result == Err::<u64, BafsError>(BafsError::InputOutputError) && !old(
            volume,
        ).device.reliable() || exists|value: Seq<u8>| #[trigger]
            inode_error_returned(old(volume)@, new_child(is_directory), value, result),
        old(volume)@.in_order() && writing::room_for_record(old(volume)@) ==> {
            let before = old(volume)@;
            let after = final(volume)@;
            let number = (before.state().inode_count + 1) as u64;
            let child = new_child(is_directory);
            let level = tree::root_level(
                before.blocks(),
                before.superblock.inode_tree_root_block,
            );
            &&& match result {
                Ok(created) => {
                    &&& after.in_order()
                    &&& volume_model::nodes_written(before, after)
                    &&& created == number
                    &&& inode_added(before.state(), after.state(), before.next_transaction, child)
                    &&& after.superblock == (BafsSuperblock {
                        inode_tree_root_block: after.superblock.inode_tree_root_block,
                        allocated_inode_count: after.superblock.allocated_inode_count,
                        ..before.superblock
                    })
                    &&& after.superseded == before.superseded + writing::path_in_inode_tree(
                        before,
                        inode::inode_key(number),
                    )
                    &&& after.next_free <= before.next_free + 2 * level + 3
                    &&& tree::root_level(
                        after.blocks(),
                        after.superblock.inode_tree_root_block,
                    ) <= level + 1
                    &&& volume_model::trees_gain(before, after, 1, 0, 0)
                },
                Err(error) => {
                    &&& error == BafsError::InputOutputError && !old(volume).device.reliable()
                    &&& after == (VolumeModel { superblock: after.superblock, ..before })
                },
            }
        },
{
    let ghost before = volume@;
    let generation: u64 = volume.next_transaction_id;
    let number: u64 = volume_allocate_inode_number(volume);
    let ghost numbered = volume@;
    let new_inode = if is_directory {
        BafsInode::new_directory(number, generation, 0)
    } else {
        BafsInode::new_regular_file(number, generation, 0)
    };
    let ghost key = inode::inode_key(number);
    let ghost value = inode::inode_bytes(new_inode);
    proof {
        inode::lemma_inode_len(new_inode);
        inode::law_inode_round_trip(new_inode);
        if before.in_order() {
            state::lemma_with_inode_count(before.state(), number);
            assert(numbered.state() == state::with_inode_count(before.state(), number));
            state::lemma_with_plain_record(numbered.state(), key, value);
        }
    }
    let result = match volume_write_inode(volume, &new_inode) {
        Ok(_) => Ok(number),
        Err(error) => Err(error),
    };
    assert(result == Err::<u64, BafsError>(BafsError::InputOutputError)
        && !volume.device.reliable() || inode_error_returned(
        before,
        new_child(is_directory),
        value,
        result,
    ));
    result
}

/// Enter an inode into a directory that lacks the name.
#[verifier::spinoff_prover]
#[verifier::rlimit(40)]
fn add_entry<D: BlockDevice>(
    volume: &mut BafsVolume<D>,
    parent_inode_number: u64,
    name: &str,
    number: u64,
    child_type: u8,
) -> (result: Result<(), BafsError>)
    requires
        store::cache_valid(old(volume).dirty_block_cache@),
        old(volume).next_free_block + 512 <= u64::MAX,
    ensures
        final(volume).device == old(volume).device,
        volume_model::worked_on(old(volume)@, final(volume)@, 0, 0),
        final(volume).superblock.free_block_count == old(volume).superblock.free_block_count,
        old(volume)@.in_order() && writing::room_for_record(old(volume)@) && parent_inode_number
            <= old(volume)@.state().inode_count && dir::create_entry_error(
            state::record_of(
                old(volume)@.state(),
                dir::entry_key(parent_inode_number, name@),
            ),
            name@,
        ) is None ==> {
            let before = old(volume)@;
            let after = final(volume)@;
            let key = dir::entry_key(parent_inode_number, name@);
            let value = dir::value_with_entry(
                state::record_of(before.state(), key),
                dir::new_entry(name@, number, child_type),
            );
            match result {
                Ok(_) => {
                    &&& writing::record_put(before, after, key, value)
                    &&& after.superblock == (BafsSuperblock {
                        inode_tree_root_block: after.superblock.inode_tree_root_block,
                        ..before.superblock
                    })
                    &&& value.len() <= tree::max_value_size()
                },
                Err(error) => {
                    &&& after == before
                    &&& error == BafsError::InputOutputError && !old(volume).device.reliable()
                        || error == BafsError::OutOfSpace && tree::insert_error(
                        before.blocks(),
                        before.superblock.inode_tree_root_block,
                        key,
                        value,
                    ) == Some(BafsError::InvalidArgument) && value.len()
                        > tree::small_value_size()
                },
            }
        },
{
    let ghost before = volume@;
    let ghost root = before.superblock.inode_tree_root_block;
    let generation: u64 = volume.next_transaction_id;
    let ghost key = dir::entry_key(parent_inode_number, name@);
    let ghost entry = dir::new_entry(name@, number, child_type);
    let ghost record = state::record_of(before.state(), key);
    let ghost value = dir::value_with_entry(record, entry);
    let ghost ready = before.in_order() && writing::room_for_record(before) && parent_inode_number
        <= before.state().inode_count && dir::create_entry_error(record, name@) is None;
    proof {
        if ready {
            volume_model::lemma_tree_lookup(before, root, key);
            if tree::insert_error(before.blocks(), root, key, value) is None {
                tree::lemma_inserted_value_fits(before.blocks(), root, key, value);
                state::lemma_entry_of(before.state(), parent_inode_number, name@);
                state::lemma_with_entry(before.state(), parent_inode_number, entry);
                assert(writing::record_admitted(before, key, value));
            } else {
                volume_model::lemma_root_present(before, root);
                if value.len() <= tree::small_value_size() {
                    tree::lemma_insert_succeeds(before.blocks(), root, key, value);
                }
            }
        }
    }
    let entered = dir::directory_create_entry(
        &volume.device,
        &mut volume.dirty_block_cache,
        volume.superblock.inode_tree_root_block,
        parent_inode_number,
        name,
        number,
        child_type,
        generation,
        &mut volume.next_free_block,
        &mut volume.superseded_blocks,
    );
    let result = match entered {
        Ok(new_root) => {
            volume.superblock.inode_tree_root_block = new_root;
            Ok(())
        },
        Err(error) => Err(error),
    };
    proof {
        if ready {
            let inserted = choose|inserted: Result<u64, BafsError>| #[trigger]
                tree::insertion_outcome(
                    before.disk,
                    before.cache,
                    volume@.cache,
                    volume.device.reliable(),
                    root,
                    key,
                    value,
                    before.next_free,
                    volume@.next_free,
                    before.superseded,
                    volume@.superseded,
                    inserted,
                ) && entered == dir::entry_result(inserted);
            if tree::insert_error(before.blocks(), root, key, value) is None {
                writing::lemma_record_put(
                    before,
                    volume@,
                    volume.device.reliable(),
                    key,
                    value,
                    inserted,
                );
            } else {
                assert(model::tree_get(before.blocks(), root, key) is Ok);
            }
        }
    }
    result
}

/// Record a new inode, and enter it into a directory.
#[verifier::spinoff_prover]
#[verifier::rlimit(40)]
fn create_child<D: BlockDevice>(
    volume: &mut BafsVolume<D>,
    parent_inode_number: u64,
    name: &str,
    is_directory: bool,
) -> (result: Result<u64, BafsError>)
    requires
        store::cache_valid(old(volume).dirty_block_cache@),
    ensures
        final(volume).device == old(volume).device,
        volume_model::worked_on(old(volume)@, final(volume)@, 0, 0),
        final(volume).superblock.free_block_count == old(volume).superblock.free_block_count,
        create_outcome(
            old(volume)@,
            final(volume)@,
            old(volume).device.reliable(),
            parent_inode_number,
            name@,
            new_child(is_directory),
            result,
        ),
{
    let ghost before = volume@;
    let parent_inode = match volume_read_inode(volume, parent_inode_number) {
        Ok(parent_inode) => parent_inode,
        Err(error) => {
            return Err(error);
        },
    };
    if !parent_inode.is_directory() {
        return Err(BafsError::NotADirectory);
    }
    match check_room(volume, volume.superblock.inode_tree_root_block, 4, 8) {
        Ok(_) => {},
        Err(error) => {
            return Err(error);
        },
    }
    if volume.superblock.allocated_inode_count == u64::MAX {
        return Err(BafsError::OutOfSpace);
    }
    match dir::check_new_entry(
        &volume.device,
        &volume.dirty_block_cache,
        volume.superblock.inode_tree_root_block,
        parent_inode_number,
        name,
    ) {
        Ok(_) => {},
        Err(error) => {
            return Err(error);
        },
    }
    let saved = volume.superblock;
    let ghost child = new_child(is_directory);
    let recording = add_inode(volume, is_directory);
    let ghost value = choose|value: Seq<u8>| #[trigger]
        inode_error_returned(before, child, value, recording);
    let number: u64 = match recording {
        Ok(number) => number,
        Err(error) => {
            let ghost unsaved = volume@;
            volume.superblock = saved;
            proof {
                volume_model::lemma_superblock_restored(before, unsaved, volume@, 0, 0);
            }
            return Err(error);
        },
    };
    let ghost recorded = volume@;
    let ghost entry_key = dir::entry_key(parent_inode_number, name@);
    proof {
        if before.in_order() {
            writing::lemma_inode_record(before, parent_inode_number);
            volume_model::lemma_tree_lookup(
                before,
                before.superblock.inode_tree_root_block,
                entry_key,
            );
            state::lemma_entry_of(before.state(), parent_inode_number, name@);
            assert(state::record_of(recorded.state(), entry_key) == state::record_of(
                before.state(),
                entry_key,
            ));
            assert(writing::room_for_record(recorded));
        }
    }
    let child_type: u8 = if is_directory {
        CHILD_TYPE_DIRECTORY
    } else {
        CHILD_TYPE_REGULAR_FILE
    };
    let entered = add_entry(volume, parent_inode_number, name, number, child_type);
    assert(inode_error_returned(
        before,
        child,
        value,
        match entered {
            Ok(_) => Ok(number),
            Err(error) => Err(error),
        },
    ));
    match entered {
        Ok(_) => {
            proof {
                volume_model::lemma_worked_on_joins(before, recorded, volume@, 0, 0);
                if before.in_order() {
                    volume_model::lemma_nodes_kept(before, recorded);
                    volume_model::lemma_nodes_kept(recorded, volume@);
                    volume_model::lemma_nodes_kept_joins(before, recorded, volume@);
                    volume_model::lemma_trees_gain_join(
                        before,
                        recorded,
                        volume@,
                        1,
                        0,
                        0,
                        1,
                        0,
                        0,
                    );
                    assert(paths_superseded(before, recorded, volume@, child, number, entry_key));
                }
            }
            Ok(number)
        },
        Err(error) => {
            let ghost unsaved = volume@;
            volume.superblock = saved;
            proof {
                volume_model::lemma_worked_on_joins(before, recorded, unsaved, 0, 0);
                volume_model::lemma_superblock_restored(before, unsaved, volume@, 0, 0);
                if before.in_order() {
                    volume_model::lemma_nodes_kept(before, volume@);
                    volume_model::lemma_nodes_added(before, volume@);
                    assert(before.tree_ready(before.superblock.inode_tree_root_block));
                    assert(before.tree_ready(before.superblock.free_extent_tree_root_block));
                    assert(before.tree_ready(before.superblock.checksum_tree_root_block));
                    assert(volume@.state() == before.state());
                    if error == BafsError::OutOfSpace {
                        assert(entry_does_not_fit(
                            before,
                            recorded,
                            parent_inode_number,
                            name@,
                            child,
                        ));
                    }
                }
            }
            Err(error)
        },
    }
}

/// Create a regular file in a directory. Returns its inode number.
pub fn volume_create_file<D: BlockDevice>(
    volume: &mut BafsVolume<D>,
    parent_inode_number: u64,
    filename: &str,
) -> (result: Result<u64, BafsError>)
    requires
        store::cache_valid(old(volume).dirty_block_cache@),
    ensures
        final(volume).device == old(volume).device,
        volume_model::worked_on(old(volume)@, final(volume)@, 0, 0),
        final(volume).superblock.free_block_count == old(volume).superblock.free_block_count,
        create_outcome(
            old(volume)@,
            final(volume)@,
            old(volume).device.reliable(),
            parent_inode_number,
            filename@,
            new_file(),
            result,
        ),
{
    create_child(volume, parent_inode_number, filename, false)
}

/// Create a directory in a directory. Returns its inode number.
pub fn volume_create_directory<D: BlockDevice>(
    volume: &mut BafsVolume<D>,
    parent_inode_number: u64,
    dirname: &str,
) -> (result: Result<u64, BafsError>)
    requires
        store::cache_valid(old(volume).dirty_block_cache@),
    ensures
        final(volume).device == old(volume).device,
        volume_model::worked_on(old(volume)@, final(volume)@, 0, 0),
        final(volume).superblock.free_block_count == old(volume).superblock.free_block_count,
        create_outcome(
            old(volume)@,
            final(volume)@,
            old(volume).device.reliable(),
            parent_inode_number,
            dirname@,
            new_directory(),
            result,
        ),
{
    create_child(volume, parent_inode_number, dirname, true)
}

} // verus!
