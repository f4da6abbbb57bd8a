//! When a name can be created, looked up and removed, and when it cannot: in terms of
//! what the volume holds, and of the room that is left.

use vstd::prelude::*;
use vstd::utf8;
use crate::btree::fanout;
use crate::btree::key::BafsKey;
use crate::btree::tree;
use crate::bytes;
use crate::dir;
use crate::dir::EntryModel;
use crate::error::BafsError;
use crate::extent;
use crate::inode;
use crate::state;
use crate::state::VolumeState;
use super::laws;
use super::listing;
use super::model as volume_model;
use super::naming;
use super::naming::NewChild;
use super::reading;
use super::unlinking;
use super::writing;
use super::{inode_in, VolumeModel};

verus! {

/// The level of the tree that holds inodes, names and extents.
pub open spec fn inode_level(volume: VolumeModel) -> nat {
    tree::root_level(volume.blocks(), volume.superblock.inode_tree_root_block)
}

/// The level of the tree of free extents.
pub open spec fn free_level(volume: VolumeModel) -> nat {
    tree::root_level(volume.blocks(), volume.superblock.free_extent_tree_root_block)
}

/// There is room for two changes of the inode tree.
pub open spec fn room_for_child(volume: VolumeModel) -> bool {
    &&& inode_level(volume) < 253
    &&& volume.next_free + 4 * inode_level(volume) + 8 <= volume.node_area_end()
    &&& volume.state().inode_count < u64::MAX
}

/// How many bytes the names take that share a record with `name`, which are those with
/// the same hash.
pub open spec fn size_of_sharers(contents: VolumeState, directory: u64, name: Seq<char>) -> nat {
    let key = dir::entry_key(directory, name);
    if contents.inodes.contains_key(key) {
        contents.inodes[key].len()
    } else {
        0
    }
}

/// What stands in the way of every creation on a volume in order is out of it.
proof fn lemma_no_refusal_for_room(volume: VolumeModel, directory: u64, name: Seq<char>)
    requires
        volume.in_order(),
        room_for_child(volume),
        inode_in(volume, directory) is Ok,
        inode_in(volume, directory)->Ok_0.posix_mode & 0o170000 == 0o040000,
    ensures
        naming::create_refusal(volume, directory, name) == dir::create_entry_error(
            state::record_of(volume.state(), dir::entry_key(directory, name)),
            name,
        ),
        dir::entry_of_record(
            state::record_of(volume.state(), dir::entry_key(directory, name)),
            name,
        ) == Ok::<Option<EntryModel>, BafsError>(
            state::entry_of(volume.state(), directory, name),
        ),
{
    let root = volume.superblock.inode_tree_root_block;
    volume_model::lemma_root_present(volume, root);
    volume_model::lemma_tree_lookup(volume, root, dir::entry_key(directory, name));
    state::lemma_entry_of(volume.state(), directory, name);
    assert(inode_in(volume, directory)->Ok_0.spec_is_directory());
}

/// When a creation is refused: where the parent cannot be read, with the error of
/// that; where it is no directory; where the name is empty or longer than 255 bytes;
/// and where the directory has the name. Nothing changes then.
pub proof fn law_creation_is_refused(
    before: VolumeModel,
    after: VolumeModel,
    directory: u64,
    name: Seq<char>,
    child: NewChild,
    result: Result<u64, BafsError>,
)
    requires
        naming::create_outcome(before, after, true, directory, name, child, result),
    ensures
        match inode_in(before, directory) {
            Err(error) => result == Err::<u64, BafsError>(error) && after == before,
            Ok(parent) => if parent.posix_mode & 0o170000 != 0o040000 {
                result == Err::<u64, BafsError>(BafsError::NotADirectory) && after == before
            } else {
                before.in_order() && room_for_child(before) ==> {
                    let length = utf8::encode_utf8(name).len();
                    &&& length == 0 || length > 255 ==> result == Err::<u64, BafsError>(
                        BafsError::InvalidArgument,
                    ) && after == before
                    &&& 0 < length <= 255 && state::entry_of(
                        before.state(),
                        directory,
                        name,
                    ) is Some ==> result == Err::<u64, BafsError>(BafsError::AlreadyExists)
                        && after == before
                }
            },
        },
{
    if before.in_order() && room_for_child(before) && inode_in(before, directory) is Ok
        && inode_in(before, directory)->Ok_0.posix_mode & 0o170000 == 0o040000 {
        lemma_no_refusal_for_room(before, directory, name);
    }
}

/// A creation is refused only for want of room: in a directory that lacks the name, of
/// 1 to 255 bytes, it succeeds where there is room for the tree nodes and where the
/// names with the same hash leave room in their record.
pub proof fn law_creation_needs_room_only(
    before: VolumeModel,
    after: VolumeModel,
    directory: u64,
    name: Seq<char>,
    child: NewChild,
    result: Result<u64, BafsError>,
)
    requires
        before.in_order(),
        inode_in(before, directory) is Ok,
        inode_in(before, directory)->Ok_0.posix_mode & 0o170000 == 0o040000,
        0 < utf8::encode_utf8(name).len() <= 255,
        state::entry_of(before.state(), directory, name) is None,
        room_for_child(before),
        size_of_sharers(before.state(), directory, name) + 12 + utf8::encode_utf8(name).len()
            <= 2011,
        naming::create_outcome(before, after, true, directory, name, child, result),
    ensures
        result == Ok::<u64, BafsError>((before.state().inode_count + 1) as u64),
{
    lemma_no_refusal_for_room(before, directory, name);
    let entry = naming::child_entry(before.state(), name, child);
    bytes::lemma_le_bytes_len(entry.child_inode_number as nat, 8);
    assert(naming::record_with_child(before.state(), directory, name, child).len()
        <= tree::small_value_size());
}

/// What is created: a number that nothing had before; an empty file with one name, or
/// an empty directory; and an entry that says which.
#[verifier::spinoff_prover]
#[verifier::rlimit(40)]
pub proof fn law_created_child_is_new_and_empty(
    before: VolumeModel,
    after: VolumeModel,
    reliable: bool,
    directory: u64,
    name: Seq<char>,
    is_directory: bool,
    number: u64,
    inner: Seq<char>,
)
    requires
        before.in_order(),
        naming::create_outcome(
            before,
            after,
            reliable,
            directory,
            name,
            naming::new_child(is_directory),
            Ok(number),
        ),
    ensures
        inode_in(before, number) == Err::<inode::BafsInode, BafsError>(BafsError::NotFound),
        inode_in(after, number) is Ok,
        ({
            let created = inode_in(after, number)->Ok_0;
            &&& created.inode_number == number
            &&& created.posix_mode == if is_directory {
                0o040755u32
            } else {
                0o100644
            }
            &&& created.hard_link_count == if is_directory {
                2u32
            } else {
                1
            }
            &&& created.file_size_in_bytes == 0
            &&& created.allocated_block_count == 0
            &&& created.generation == before.next_transaction
        }),
        reading::lookup_in(after, directory, name) == Ok::<Option<u64>, BafsError>(Some(number)),
        state::entry_of(after.state(), directory, name) is Some,
        state::entry_of(after.state(), directory, name)->Some_0.filename == name,
        state::entry_of(after.state(), directory, name)->Some_0.child_type == if is_directory {
            4u8
        } else {
            8
        },
        state::entry_of(after.state(), directory, name)->Some_0.name_length_bytes
            == utf8::encode_utf8(name).len(),
        number != directory,
        state::entry_of(after.state(), number, inner) is None,
        number == before.state().inode_count + 1,
        after.state().inode_count == number,
{
    let child = naming::new_child(is_directory);
    assert(naming::create_refusal(before, directory, name) is None);
    writing::lemma_inode_record(before, directory);
    writing::lemma_inode_record(before, number);
    writing::lemma_inode_record(after, number);
    laws::law_created_name_is_found(
        before.state(),
        after.state(),
        reliable,
        directory,
        name,
        before.next_transaction,
        child,
        number,
    );
    assert(laws::same_file(before.state(), after.state(), directory));
    laws::lemma_same_inode(before, after, directory);
    laws::law_lookup_finds_entries(after, directory, name);
    let key = dir::entry_key(number, inner);
    if before.state().inodes.contains_key(key) {
        assert(key.object_id != number);
    }
    assert(state::entry_of(before.state(), number, inner) is None);
}

/// When a lookup is refused: where the directory cannot be read, with the error of
/// that, and where it is none. A name that is not there is no error.
pub proof fn law_lookup_is_refused(volume: VolumeModel, directory: u64, name: Seq<char>)
    ensures
        match inode_in(volume, directory) {
            Err(error) => reading::lookup_in(volume, directory, name) == Err::<
                Option<u64>,
                BafsError,
            >(error),
            Ok(inode) => {
                &&& inode.posix_mode & 0o170000 != 0o040000 ==> reading::lookup_in(
                    volume,
                    directory,
                    name,
                ) == Err::<Option<u64>, BafsError>(BafsError::NotADirectory)
                &&& inode.posix_mode & 0o170000 == 0o040000 && volume.in_order()
                    ==> reading::lookup_in(volume, directory, name) == Ok::<
                    Option<u64>,
                    BafsError,
                >(
                    match state::entry_of(volume.state(), directory, name) {
                        Some(entry) => Some(entry.child_inode_number),
                        None => None,
                    },
                )
            },
        },
{
    if volume.in_order() && inode_in(volume, directory) is Ok && inode_in(
        volume,
        directory,
    )->Ok_0.posix_mode & 0o170000 == 0o040000 {
        laws::law_lookup_finds_entries(volume, directory, name);
    }
}

/// The entry that is found for a name has that name.
pub proof fn law_entry_has_its_name(contents: VolumeState, directory: u64, name: Seq<char>)
    requires
        contents.ok(),
    ensures
        state::entry_of(contents, directory, name) matches Some(entry) ==> entry.filename == name,
{
    let key = dir::entry_key(directory, name);
    if contents.inodes.contains_key(key) {
        dir::lemma_list_present(dir::all_entries(contents.inodes[key])->Ok_0, name);
    }
}

/// No name is left in a directory.
pub open spec fn has_no_names(contents: VolumeState, directory: u64) -> bool {
    forall|name: Seq<char>| #[trigger] state::entry_of(contents, directory, name) is None
}

/// A directory counts as empty exactly where it has no names.
pub proof fn law_empty_directory_has_no_names(volume: VolumeModel, directory: u64)
    requires
        volume.in_order(),
    ensures
        ({
            let items = dir::directory_items(
                volume.blocks(),
                volume.superblock.inode_tree_root_block,
                directory,
            );
            &&& items is Ok
            &&& (items->Ok_0.len() == 0) == has_no_names(volume.state(), directory)
        }),
{
    let count = listing::law_listing_is_exact(volume, directory);
    if count > 0 {
        let first = listing::entry_at(volume, directory, 0);
        assert(first matches Ok(Some(_)));
        assert(state::entry_of(volume.state(), directory, first->Ok_0->Some_0.filename) is Some);
    } else {
        assert forall|name: Seq<char>| #[trigger]
            state::entry_of(volume.state(), directory, name) is None by {
            if state::entry_of(volume.state(), directory, name) is Some {
                let index = choose|index: int|
                    0 <= index < count && #[trigger] listing::entry_at(volume, directory, index)
                        == Ok::<Option<EntryModel>, BafsError>(
                        state::entry_of(volume.state(), directory, name),
                    );
                assert(false);
            }
        }
    }
}

/// There are enough blocks to remove a name and to free `extent_count` extents.
pub open spec fn room_to_remove(volume: VolumeModel, extent_count: nat) -> bool {
    &&& extent_count <= 8_000_000
    &&& inode_level(volume) + 1 < 253
    &&& free_level(volume) + 4 < 253
    &&& volume.next_free + 4 * inode_level(volume) + 8 + extent_count * (inode_level(volume) + 4
        * free_level(volume) + 23) <= volume.node_area_end()
}

/// Few levels are gained by some million insertions.
pub proof fn lemma_few_levels(insertions: nat)
    requires
        insertions <= 8_000_000,
    ensures
        fanout::levels_gained(insertions) <= 4,
{
    reveal_with_fuel(fanout::divisions, 5);
}

/// The room that is asked for is that of the tree nodes.
proof fn lemma_room_to_remove(volume: VolumeModel, extent_count: nat)
    requires
        room_to_remove(volume, extent_count),
    ensures
        unlinking::room_for_unlink(volume, extent_count),
        writing::room_for_record(volume),
{
    lemma_few_levels(extent_count);
    let cost = unlinking::extent_cost(volume, extent_count) + 1;
    let most = inode_level(volume) + 4 * free_level(volume) + 23;
    assert(extent_count * cost <= extent_count * most) by (nonlinear_arith)
        requires
            cost <= most,
    ;
    assert(extent_count * most >= 0) by (nonlinear_arith);
}

/// Why a name cannot be removed: the directory lacks it, or it stands for a directory
/// that has names left. Nothing changes then.
pub proof fn law_removal_is_refused(
    before: VolumeModel,
    after: VolumeModel,
    directory: u64,
    name: Seq<char>,
    result: Result<(), BafsError>,
)
    requires
        before.in_order(),
        unlinking::removal_outcome(before, after, true, directory, name, result),
    ensures
        match state::entry_of(before.state(), directory, name) {
            None => result == Err::<(), BafsError>(BafsError::NotFound) && after == before,
            Some(entry) => {
                let child = entry.child_inode_number;
                inode_in(before, child) matches Ok(inode) && inode.posix_mode & 0o170000
                    == 0o040000 && !has_no_names(before.state(), child) ==> result == Err::<
                    (),
                    BafsError,
                >(BafsError::DirectoryNotEmpty) && after == before
            },
        },
{
    let root = before.superblock.inode_tree_root_block;
    volume_model::lemma_tree_lookup(before, root, dir::entry_key(directory, name));
    state::lemma_entry_of(before.state(), directory, name);
    if let Some(entry) = state::entry_of(before.state(), directory, name) {
        law_empty_directory_has_no_names(before, entry.child_inode_number);
    }
}

/// A name is refused to be removed only for want of room: one that stands for a file,
/// or for a directory without names, is removed where there is room for the tree
/// nodes. It is gone then, and all other names are as they were. Where it was the last
/// one, so is the file, and its blocks are free; a directory, which counts itself, and
/// a file that has other names stay with one less.
#[verifier::spinoff_prover]
#[verifier::rlimit(60)]
pub proof fn law_removal_needs_room_only(
    before: VolumeModel,
    after: VolumeModel,
    directory: u64,
    name: Seq<char>,
    result: Result<(), BafsError>,
    other_directory: u64,
    other: Seq<char>,
)
    requires
        before.in_order(),
        state::entry_of(before.state(), directory, name) is Some,
        ({
            let child = state::entry_of(before.state(), directory, name)->Some_0.child_inode_number;
            &&& inode_in(before, child) is Ok
            &&& inode_in(before, child)->Ok_0.posix_mode & 0o170000 == 0o040000 ==> has_no_names(
                before.state(),
                child,
            )
            &&& room_to_remove(before, unlinking::extents_in(before, child)->Ok_0.len())
        }),
        unlinking::removal_outcome(before, after, true, directory, name, result),
    ensures
        result is Ok,
        state::entry_of(after.state(), directory, name) is None,
        other_directory != directory || other != name ==> state::entry_of(
            after.state(),
            other_directory,
            other,
        ) == state::entry_of(before.state(), other_directory, other),
        after.state().inode_count == before.state().inode_count,
        ({
            let child = state::entry_of(before.state(), directory, name)->Some_0.child_inode_number;
            let inode = inode_in(before, child)->Ok_0;
            if inode.hard_link_count <= 1 {
                &&& inode_in(after, child) == Err::<inode::BafsInode, BafsError>(
                    BafsError::NotFound,
                )
                &&& forall|key: BafsKey, address: u64|
                    key.object_id == child && #[trigger] before.state().uses(key, address)
                        ==> extent::is_free(after.state().free, address)
            } else {
                &&& inode_in(after, child) == Ok::<inode::BafsInode, BafsError>(
                    inode::BafsInode {
                        hard_link_count: (inode.hard_link_count - 1) as u32,
                        ..inode
                    },
                )
                &&& after.state().free == before.state().free
            }
        }),
{
    let root = before.superblock.inode_tree_root_block;
    let entry = state::entry_of(before.state(), directory, name)->Some_0;
    let child = entry.child_inode_number;
    let inode = inode_in(before, child)->Ok_0;
    let all = unlinking::extents_in(before, child)->Ok_0.len();
    volume_model::lemma_tree_lookup(before, root, dir::entry_key(directory, name));
    volume_model::lemma_root_present(before, root);
    state::lemma_entry_of(before.state(), directory, name);
    writing::lemma_inode_record(before, child);
    unlinking::lemma_extents_listed(before, child);
    law_empty_directory_has_no_names(before, child);
    let count = unlinking::extents_to_free(before, inode);
    assert(room_to_remove(before, count)) by {
        let most = inode_level(before) + 4 * free_level(before) + 23;
        assert(count * most <= all * most) by (nonlinear_arith)
            requires
                count <= all,
        ;
    }
    lemma_room_to_remove(before, count);
    assert(unlinking::unlink_refusal(before, directory, name) is None);
    assert(result is Ok);
    laws::law_unlinked_name_is_gone(before.state(), after.state(), directory, name, inode);
    writing::lemma_inode_record(after, child);
    if inode.hard_link_count <= 1 {
        laws::law_last_unlink_frees_file(before.state(), after.state(), directory, name, inode);
    } else {
        inode::law_inode_round_trip(unlinking::with_fewer_links(inode));
        lemma_record_is_read(after, child, unlinking::with_fewer_links(inode));
    }
}

/// An inode that was recorded is read.
proof fn lemma_record_is_read(volume: VolumeModel, inode_number: u64, inode: inode::BafsInode)
    requires
        volume.in_order(),
        volume.state().inodes.contains_key(inode::inode_key(inode_number)),
        volume.state().inodes[inode::inode_key(inode_number)] == inode::inode_bytes(inode),
    ensures
        inode_in(volume, inode_number) == Ok::<inode::BafsInode, BafsError>(inode),
{
    writing::lemma_inode_record(volume, inode_number);
    inode::law_inode_round_trip(inode);
}

} // verus!
