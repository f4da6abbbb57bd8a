//! What holds of a volume across its operations.

use vstd::prelude::*;
use crate::block_io;
use crate::block_io::BlockWrite;
use crate::btree::key;
use crate::btree::key::{
    BafsKey, ITEM_TYPE_DIRECTORY_ENTRY, ITEM_TYPE_EXTENT_DATA, ITEM_TYPE_INODE,
};
use crate::btree::model;
use crate::btree::node::LeafEntry;
use crate::checksum_tree;
use crate::dir;
use crate::error::BafsError;
use crate::extent;
use crate::extent::BafsExtentData;
use crate::inode;
use crate::inode::BafsInode;
use crate::state;
use crate::state::VolumeState;
use crate::superblock;
use super::formatting;
use super::formatting::BafsFormatOptions;
use super::model as volume_model;
use super::mounting;
use super::naming;
use super::naming::NewChild;
use super::reading;
use super::unlinking;
use super::writing;
use super::{inode_in, VolumeModel};

verus! {

/// A block of a file can be read.
pub proof fn lemma_file_block(volume: VolumeModel, key: BafsKey, address: u64)
    requires
        volume.in_order(),
        volume.state().uses(key, address),
    ensures
        reading::data_block(volume, address as int) == Ok::<Seq<u8>, BafsError>(
            volume.state().data[address],
        ),
        volume.state().data[address].len() == 4096,
{
    let contents = volume.state();
    assert(contents.inodes.contains_key(key));
    assert(contents.record_ok(key, contents.inodes[key]));
    assert(contents.is_data_block(address));
    assert(contents.checksum_matches(address));
    volume_model::lemma_tree_lookup(
        volume,
        volume.superblock.checksum_tree_root_block,
        checksum_tree::checksum_key(address),
    );
    checksum_tree::law_checksum_item_round_trip(
        checksum_tree::checksum_item_of(address, contents.data[address]),
    );
}

/// The extent records of a volume in order.
pub proof fn lemma_extent_records(volume: VolumeModel, inode_number: u64)
    requires
        volume.in_order(),
    ensures
        extent::extent_records_ok(volume.state().inodes, inode_number),
{
    let items = volume.state().inodes;
    assert forall|start: u64| #[trigger]
        items.contains_key(extent::extent_key(inode_number, start)) implies items[extent::extent_key(
        inode_number,
        start,
    )].len() >= 32 by {
        let key = extent::extent_key(inode_number, start);
        assert(volume.state().record_ok(key, items[key]));
    }
}

/// The part of `data` that is read from one of its blocks.
proof fn lemma_piece(data: Seq<u8>, within: int, count: int)
    requires
        0 <= within,
        0 <= count <= 4096 - within % 4096,
        within + count <= data.len(),
    ensures
        block_io::block_of(data, within / 4096).subrange(within % 4096, within % 4096 + count)
            == data.subrange(within, within + count),
{
    let block = block_io::block_of(data, within / 4096);
    let at = within % 4096;
    assert(4096 * (within / 4096) + at == within);
    assert(block.subrange(at, at + count) =~= data.subrange(within, within + count));
}

/// Reading on from `from` in what was just written.
#[verifier::spinoff_prover]
#[verifier::rlimit(40)]
proof fn lemma_written_span(
    before: VolumeModel,
    after: VolumeModel,
    inode_number: u64,
    offset: u64,
    data: Seq<u8>,
    generation: u64,
    item: LeafEntry,
    from: int,
    to: int,
)
    requires
        before.in_order(),
        after.in_order(),
        writing::file_written(
            before.state(),
            after.state(),
            inode_number,
            offset,
            data,
            generation,
            item,
        ),
        data.len() > 0,
        offset + data.len() <= u64::MAX,
        offset <= from <= to <= offset + data.len(),
        forall|start: u64, position: u64|
            start < offset <= position < offset + data.len() ==> !#[trigger] extent::covering(
                before.state().inodes,
                inode_number,
                start,
                position,
            ),
    ensures
        reading::read_span(after, inode_number, from, to) == Ok::<Seq<u8>, BafsError>(
            data.subrange(from - offset, to - offset),
        ),
    decreases to - from,
{
    if from == to {
        assert(data.subrange(from - offset, to - offset) =~= Seq::<u8>::empty());
    } else {
        let position = from as u64;
        let total_count = block_io::blocks_for(data.len());
        let first = item.key.offset;
        let key = extent::extent_key(inode_number, offset);
        let written = BafsExtentData {
            logical_byte_offset: offset,
            first_disk_block: first,
            block_count: total_count as u64,
            extent_flags: 0,
            reserved: 0,
        };
        let taken = state::with_blocks_taken(before.state(), item, total_count as u64);
        let stored = state::with_data(taken, first, data, total_count);
        let root = after.superblock.inode_tree_root_block;
        extent::law_extent_round_trip(written);
        state::lemma_take_blocks(before.state(), item, total_count as u64);
        state::lemma_with_data(taken, first, data, total_count, total_count);
        assert(after.state().inodes[key] == extent::extent_bytes(written));
        assert(extent::covering(after.state().inodes, inode_number, offset, position));
        assert forall|other: u64| other < offset implies !#[trigger] extent::covering(
            after.state().inodes,
            inode_number,
            other,
            position,
        ) by {
            assert(!extent::covering(before.state().inodes, inode_number, other, position));
        }
        lemma_extent_records(after, inode_number);
        extent::lemma_extent_found(after.blocks(), root, inode_number, offset, position);
        let within = from - offset;
        let address = (first + within / 4096) as u64;
        assert(after.state().uses(key, address));
        lemma_file_block(after, key, address);
        assert(after.state().data[address] == block_io::block_of(data, within / 4096));
        let count = if to - from < 4096 - within % 4096 {
            to - from
        } else {
            4096 - within % 4096
        };
        lemma_piece(data, within, count);
        lemma_written_span(
            before,
            after,
            inode_number,
            offset,
            data,
            generation,
            item,
            from + count,
            to,
        );
        assert(data.subrange(within, within + count) + data.subrange(within + count, to - offset)
            =~= data.subrange(within, to - offset));
    }
}

/// What was written to a file is read back, as a whole or any part of it, unless
/// something that was written before, at a lower offset, reaches into it.
pub proof fn law_write_is_read_back(
    before: VolumeModel,
    after: VolumeModel,
    inode_number: u64,
    offset: u64,
    data: Seq<u8>,
    generation: u64,
    item: LeafEntry,
    at: u64,
    length: nat,
)
    requires
        before.in_order(),
        after.in_order(),
        writing::write_refusal(before, inode_number, data.len()) is None,
        writing::file_written(
            before.state(),
            after.state(),
            inode_number,
            offset,
            data,
            generation,
            item,
        ),
        data.len() > 0,
        offset + data.len() <= u64::MAX,
        forall|start: u64, position: u64|
            start < offset <= position < offset + data.len() ==> !#[trigger] extent::covering(
                before.state().inodes,
                inode_number,
                start,
                position,
            ),
        offset <= at,
        at + length <= offset + data.len(),
    ensures
        reading::file_read(after, inode_number, at, length) == Ok::<Seq<u8>, BafsError>(
            data.subrange(at - offset, at - offset + length),
        ),
{
    lemma_grown_inode(before, after, inode_number, offset, data, generation, item);
    lemma_written_span(
        before,
        after,
        inode_number,
        offset,
        data,
        generation,
        item,
        at as int,
        at + length,
    );
    assert(length == 0 ==> data.subrange(at - offset, at - offset + length) =~= Seq::<u8>::empty());
}

/// What was written to the start of a file is read back.
pub proof fn law_write_to_start_is_read_back(
    before: VolumeModel,
    after: VolumeModel,
    inode_number: u64,
    data: Seq<u8>,
    generation: u64,
    item: LeafEntry,
    at: u64,
    length: nat,
)
    requires
        before.in_order(),
        after.in_order(),
        writing::write_refusal(before, inode_number, data.len()) is None,
        writing::file_written(
            before.state(),
            after.state(),
            inode_number,
            0,
            data,
            generation,
            item,
        ),
        0 < data.len() <= u64::MAX,
        at + length <= data.len(),
    ensures
        reading::file_read(after, inode_number, at, length) == Ok::<Seq<u8>, BafsError>(
            data.subrange(at as int, at + length),
        ),
{
    law_write_is_read_back(before, after, inode_number, 0, data, generation, item, at, length);
}

/// Where what was written to the start of a file is all that the file holds, every
/// read gives the part of it that was asked for, cut off at its end.
pub proof fn law_read_ends_with_file(
    before: VolumeModel,
    after: VolumeModel,
    inode_number: u64,
    data: Seq<u8>,
    generation: u64,
    item: LeafEntry,
    at: u64,
    length: nat,
)
    requires
        before.in_order(),
        after.in_order(),
        writing::write_refusal(before, inode_number, data.len()) is None,
        writing::file_written(
            before.state(),
            after.state(),
            inode_number,
            0,
            data,
            generation,
            item,
        ),
        0 < data.len() <= u64::MAX,
        inode_in(before, inode_number)->Ok_0.file_size_in_bytes <= data.len(),
    ensures
        reading::file_read(after, inode_number, at, length) == Ok::<Seq<u8>, BafsError>(
            reading::part_of(data, at, length),
        ),
{
    lemma_grown_inode(before, after, inode_number, 0, data, generation, item);
    if at < data.len() && length > 0 {
        let to = if at + length < data.len() {
            at + length
        } else {
            data.len() as int
        };
        lemma_written_span(
            before,
            after,
            inode_number,
            0,
            data,
            generation,
            item,
            at as int,
            to,
        );
        assert(data.subrange(at as int, data.len() as int) =~= data.skip(at as int));
    } else if at < data.len() {
        assert(data.subrange(at as int, at + length) =~= Seq::<u8>::empty());
    }
}


pub proof fn lemma_grown_inode(
    before: VolumeModel,
    after: VolumeModel,
    inode_number: u64,
    offset: u64,
    data: Seq<u8>,
    generation: u64,
    item: LeafEntry,
)
    requires
        before.in_order(),
        after.in_order(),
        writing::write_refusal(before, inode_number, data.len()) is None,
        writing::file_written(
            before.state(),
            after.state(),
            inode_number,
            offset,
            data,
            generation,
            item,
        ),
        offset + data.len() <= u64::MAX,
    ensures
        inode_in(after, inode_number) == Ok::<BafsInode, BafsError>(
            writing::grown_inode(
                inode_in(before, inode_number)->Ok_0,
                offset + data.len(),
                block_io::blocks_for(data.len()),
                generation,
            ),
        ),
        inode_in(after, inode_number)->Ok_0.spec_is_regular_file(),
        inode_in(after, inode_number)->Ok_0.file_size_in_bytes >= offset + data.len(),
{
    writing::lemma_inode_record(before, inode_number);
    writing::lemma_inode_record(after, inode_number);
    let grown = writing::grown_inode(
        inode_in(before, inode_number)->Ok_0,
        offset + data.len(),
        block_io::blocks_for(data.len()),
        generation,
    );
    inode::law_inode_round_trip(grown);
}

/// The size of a file after a write: the file reaches at least to the end of what
/// was written, and is never cut short. Its mode stays the same.
pub proof fn law_write_grows_file(
    before: VolumeModel,
    after: VolumeModel,
    inode_number: u64,
    offset: u64,
    data: Seq<u8>,
    generation: u64,
    item: LeafEntry,
)
    requires
        before.in_order(),
        after.in_order(),
        writing::write_refusal(before, inode_number, data.len()) is None,
        writing::file_written(
            before.state(),
            after.state(),
            inode_number,
            offset,
            data,
            generation,
            item,
        ),
        offset + data.len() <= u64::MAX,
    ensures
        inode_in(after, inode_number) is Ok,
        ({
            let old_size = inode_in(before, inode_number)->Ok_0.file_size_in_bytes;
            let new_size = inode_in(after, inode_number)->Ok_0.file_size_in_bytes;
            &&& new_size >= old_size
            &&& new_size >= offset + data.len()
            &&& new_size == old_size || new_size == offset + data.len()
        }),
        inode_in(after, inode_number)->Ok_0.posix_mode == inode_in(
            before,
            inode_number,
        )->Ok_0.posix_mode,
{
    lemma_grown_inode(before, after, inode_number, offset, data, generation, item);
}

/// A file is the same in two states of a volume: its inode, its extents and the
/// blocks that they hold.
pub open spec fn same_file(before: VolumeState, after: VolumeState, inode_number: u64) -> bool {
    &&& forall|key: BafsKey|
        unlinking::belongs_to_file(key, inode_number) ==> #[trigger] after.inodes.contains_key(
            key,
        ) == before.inodes.contains_key(key) && (before.inodes.contains_key(key)
            ==> after.inodes[key] == before.inodes[key])
    &&& forall|key: BafsKey, address: u64|
        key.object_id == inode_number && #[trigger] before.uses(key, address)
            ==> after.data[address] == before.data[address]
}

pub proof fn lemma_same_inode(before: VolumeModel, after: VolumeModel, inode_number: u64)
    requires
        before.in_order(),
        after.in_order(),
        same_file(before.state(), after.state(), inode_number),
    ensures
        inode_in(after, inode_number) == inode_in(before, inode_number),
{
    let key = inode::inode_key(inode_number);
    volume_model::lemma_tree_lookup(before, before.superblock.inode_tree_root_block, key);
    volume_model::lemma_tree_lookup(after, after.superblock.inode_tree_root_block, key);
    assert(unlinking::belongs_to_file(key, inode_number));
    assert(after.state().inodes.contains_key(key) == before.state().inodes.contains_key(key));
}

#[verifier::spinoff_prover]
#[verifier::rlimit(40)]
proof fn lemma_same_span(
    before: VolumeModel,
    after: VolumeModel,
    inode_number: u64,
    from: int,
    to: int,
)
    requires
        before.in_order(),
        after.in_order(),
        same_file(before.state(), after.state(), inode_number),
        0 <= from,
        to <= u64::MAX,
    ensures
        reading::read_span(after, inode_number, from, to) == reading::read_span(
            before,
            inode_number,
            from,
            to,
        ),
    decreases to - from,
{
    if from < to {
        let position = from as u64;
        let before_root = before.superblock.inode_tree_root_block;
        let after_root = after.superblock.inode_tree_root_block;
        let low = extent::extent_key(inode_number, 0);
        let high = extent::extent_key(inode_number, u64::MAX);
        assert forall|target: BafsKey|
            low.rank() <= target.rank() <= high.rank() implies #[trigger] model::tree_map(
            after.blocks(),
            after_root,
        ).contains_key(target) == model::tree_map(before.blocks(), before_root).contains_key(target)
            && (model::tree_map(after.blocks(), after_root).contains_key(target)
            ==> model::tree_map(after.blocks(), after_root)[target] == model::tree_map(
            before.blocks(),
            before_root,
        )[target]) by {
            key::law_keys_are_ordered_lexicographically(target, low);
            key::law_keys_are_ordered_lexicographically(high, target);
            assert(unlinking::belongs_to_file(target, inode_number));
            assert(after.state().inodes.contains_key(target)
                == before.state().inodes.contains_key(target));
        }
        model::lemma_same_range(
            after.blocks(),
            after_root,
            before.blocks(),
            before_root,
            low,
            high,
        );
        assert(reading::extent_of(after, inode_number, position) == reading::extent_of(
            before,
            inode_number,
            position,
        ));
        lemma_extent_records(before, inode_number);
        extent::lemma_found_extent_is_recorded(
            before.blocks(),
            before_root,
            inode_number,
            position,
        );
        if let Ok(found) = reading::extent_of(before, inode_number, position) {
            let start = choose|start: u64| #[trigger]
                extent::covering(before.state().inodes, inode_number, start, position) && found
                    == extent::extent_from(
                    before.state().inodes[extent::extent_key(inode_number, start)],
                );
            let key = extent::extent_key(inode_number, start);
            let within = from - found.logical_byte_offset;
            let address = (found.first_disk_block + within / 4096) as u64;
            assert(before.state().inodes.contains_key(key));
            assert(before.state().record_ok(key, before.state().inodes[key]));
            assert(before.state().uses(key, address));
            assert(unlinking::belongs_to_file(key, inode_number));
            assert(after.state().inodes.contains_key(key));
            assert(after.state().uses(key, address));
            lemma_file_block(before, key, address);
            lemma_file_block(after, key, address);
            let count = if to - from < 4096 - within % 4096 {
                to - from
            } else {
                4096 - within % 4096
            };
            lemma_same_span(before, after, inode_number, from + count, to);
        }
    }
}

/// Reading gives the same as long as a file stays the same, whatever else happens
/// to the volume.
pub proof fn law_same_file_reads_the_same(
    before: VolumeModel,
    after: VolumeModel,
    inode_number: u64,
    offset: u64,
    length: nat,
)
    requires
        before.in_order(),
        after.in_order(),
        same_file(before.state(), after.state(), inode_number),
    ensures
        inode_in(after, inode_number) == inode_in(before, inode_number),
        reading::file_read(after, inode_number, offset, length) == reading::file_read(
            before,
            inode_number,
            offset,
            length,
        ),
{
    lemma_same_inode(before, after, inode_number);
    if let Ok(inode) = inode_in(before, inode_number) {
        let size = inode.file_size_in_bytes;
        if offset + length < size {
            lemma_same_span(before, after, inode_number, offset as int, offset + length);
        } else {
            lemma_same_span(before, after, inode_number, offset as int, size as int);
        }
    }
}

/// A write to one file leaves all other files as they are.
pub proof fn law_write_keeps_other_files(
    before: VolumeState,
    after: VolumeState,
    inode_number: u64,
    offset: u64,
    data: Seq<u8>,
    generation: u64,
    item: LeafEntry,
    other: u64,
)
    requires
        before.ok(),
        writing::file_written(before, after, inode_number, offset, data, generation, item),
        data.len() > 0,
        block_io::blocks_for(data.len()) <= u64::MAX,
        other != inode_number,
    ensures
        same_file(before, after, other),
{
    let count = block_io::blocks_for(data.len());
    let taken = state::with_blocks_taken(before, item, count as u64);
    state::lemma_take_blocks(before, item, count as u64);
    state::lemma_with_data(taken, item.key.offset, data, count, count);
    assert forall|key: BafsKey, address: u64|
        key.object_id == other && #[trigger] before.uses(key, address) implies after.data[address]
        == before.data[address] by {
        assert(taken.uses(key, address));
    }
}

/// A write that fails leaves all files as they are.
pub proof fn law_failed_write_keeps_files(before: VolumeState, after: VolumeState, other: u64)
    requires
        state::files_kept(before, after),
    ensures
        same_file(before, after, other),
{
}

/// A write leaves all names as they are.
pub proof fn law_write_keeps_names(
    before: VolumeState,
    after: VolumeState,
    inode_number: u64,
    offset: u64,
    data: Seq<u8>,
    generation: u64,
    item: LeafEntry,
    directory: u64,
    name: Seq<char>,
)
    requires
        before.ok(),
        writing::file_written(before, after, inode_number, offset, data, generation, item),
        data.len() > 0,
        block_io::blocks_for(data.len()) <= u64::MAX,
    ensures
        state::entry_of(after, directory, name) == state::entry_of(before, directory, name),
{
    let count = block_io::blocks_for(data.len());
    let taken = state::with_blocks_taken(before, item, count as u64);
    state::lemma_take_blocks(before, item, count as u64);
    state::lemma_with_data(taken, item.key.offset, data, count, count);
}

/// What a lookup of a name gives on a volume in order.
pub proof fn law_lookup_finds_entries(volume: VolumeModel, directory: u64, name: Seq<char>)
    requires
        volume.in_order(),
        inode_in(volume, directory) matches Ok(inode) ==> inode.spec_is_directory(),
    ensures
        reading::lookup_in(volume, directory, name) == match inode_in(volume, directory) {
            Err(_) => Err::<Option<u64>, BafsError>(BafsError::NotFound),
            Ok(_) => Ok::<Option<u64>, BafsError>(
                match state::entry_of(volume.state(), directory, name) {
                    Some(entry) => Some(entry.child_inode_number),
                    None => None,
                },
            ),
        },
{
    writing::lemma_inode_record(volume, directory);
    volume_model::lemma_tree_lookup(
        volume,
        volume.superblock.inode_tree_root_block,
        dir::entry_key(directory, name),
    );
    state::lemma_entry_of(volume.state(), directory, name);
}

/// Adding an inode leaves all names as they are.
proof fn lemma_inode_added(
    before: VolumeState,
    after: VolumeState,
    generation: u64,
    child: NewChild,
)
    requires
        before.ok(),
        before.inode_count < u64::MAX,
        naming::inode_added(before, after, generation, child),
    ensures
        after.ok(),
        forall|directory: u64, name: Seq<char>| #[trigger]
            state::entry_of(after, directory, name) == state::entry_of(before, directory, name),
        forall|directory: u64, name: Seq<char>| #[trigger]
            state::record_of(after, dir::entry_key(directory, name)) == state::record_of(
                before,
                dir::entry_key(directory, name),
            ),
        forall|key: BafsKey| #[trigger]
            before.inodes.contains_key(key) ==> key.object_id <= before.inode_count,
{
    let number = (before.inode_count + 1) as u64;
    let key = inode::inode_key(number);
    inode::lemma_inode_len(inode::inode_from(after.inodes[key]));
    state::lemma_with_inode_count(before, number);
    state::lemma_with_plain_record(
        state::with_inode_count(before, number),
        key,
        after.inodes[key],
    );
    assert forall|directory: u64, name: Seq<char>| #[trigger]
        state::entry_of(after, directory, name) == state::entry_of(before, directory, name) by {
        assert(dir::entry_key(directory, name) != key);
    }
    assert forall|directory: u64, name: Seq<char>| #[trigger]
        state::record_of(after, dir::entry_key(directory, name)) == state::record_of(
            before,
            dir::entry_key(directory, name),
        ) by {
        assert(dir::entry_key(directory, name) != key);
    }
    assert forall|other: BafsKey| #[trigger] before.inodes.contains_key(
        other,
    ) implies other.object_id <= before.inode_count by {
        assert(before.record_ok(other, before.inodes[other]));
    }
}

/// What was created is found under its name, with a number that nothing had
/// before; all other names and all files are as they were.
#[verifier::spinoff_prover]
#[verifier::rlimit(60)]
pub proof fn law_created_name_is_found(
    before: VolumeState,
    after: VolumeState,
    reliable: bool,
    parent: u64,
    name: Seq<char>,
    generation: u64,
    child: NewChild,
    number: u64,
)
    requires
        before.ok(),
        parent <= before.inode_count < u64::MAX,
        naming::creation_outcome(
            before,
            after,
            reliable,
            parent,
            name,
            generation,
            child,
            Ok(number),
        ),
    ensures
        state::entry_of(after, parent, name) == Some(
            dir::new_entry(name, number, child.child_type),
        ),
        state::entry_of(before, parent, name) is None,
        number > before.inode_count,
        forall|key: BafsKey| #[trigger]
            before.inodes.contains_key(key) ==> key.object_id != number,
        inode::new_inode_record(
            after.inodes[inode::inode_key(number)],
            number,
            generation,
            child.posix_mode,
            child.hard_link_count,
        ),
        forall|directory: u64, other: Seq<char>|
            directory != parent || other != name ==> #[trigger] state::entry_of(
                after,
                directory,
                other,
            ) == state::entry_of(before, directory, other),
        forall|other: u64| other != number ==> #[trigger] same_file(before, after, other),
{
    let entry_key = dir::entry_key(parent, name);
    let middle = choose|middle: VolumeState| #[trigger]
        naming::inode_added(before, middle, generation, child) && after == state::with_record(
            middle,
            entry_key,
            dir::value_with_entry(
                state::record_of(before, entry_key),
                dir::new_entry(name, number, child.child_type),
            ),
        );
    lemma_inode_added(before, middle, generation, child);
    state::lemma_entry_of(before, parent, name);
    assert(state::entry_of(middle, parent, name) is None);
    assert(state::record_of(middle, entry_key) == state::record_of(before, entry_key));
    state::lemma_with_entry(middle, parent, dir::new_entry(name, number, child.child_type));
    assert forall|other: u64| other != number implies #[trigger] same_file(
        before,
        after,
        other,
    ) by {
        lemma_file_stays(before, after, number, entry_key, other);
    }
}

/// A file stays the same where only one other inode and the names under one key
/// change.
proof fn lemma_file_stays(
    before: VolumeState,
    after: VolumeState,
    changed: u64,
    names: BafsKey,
    other: u64,
)
    requires
        other != changed,
        names.item_type == ITEM_TYPE_DIRECTORY_ENTRY,
        after.data == before.data,
        forall|key: BafsKey|
            key != names && !unlinking::belongs_to_file(key, changed)
                ==> #[trigger] after.inodes.contains_key(key) == before.inodes.contains_key(key)
                && (before.inodes.contains_key(key) ==> after.inodes[key] == before.inodes[key]),
    ensures
        same_file(before, after, other),
{
    assert forall|key: BafsKey|
        unlinking::belongs_to_file(key, other) implies #[trigger] after.inodes.contains_key(key)
        == before.inodes.contains_key(key) && (before.inodes.contains_key(key)
        ==> after.inodes[key] == before.inodes[key]) by {
        assert(key.item_type == ITEM_TYPE_INODE || key.item_type == ITEM_TYPE_EXTENT_DATA);
        assert(key != names);
    }
}

/// What happens to an inode whose name was removed leaves all names as they are.
proof fn lemma_names_after_unlink(named: VolumeState, after: VolumeState, inode: BafsInode)
    requires
        ({
            let fewer = unlinking::with_fewer_links(inode);
            if fewer.hard_link_count > 0 {
                after == state::with_record(
                    named,
                    inode::inode_key(inode.inode_number),
                    inode::inode_bytes(fewer),
                )
            } else {
                unlinking::file_removed(named, after, inode.inode_number)
            }
        }),
    ensures
        forall|directory: u64, name: Seq<char>| #[trigger]
            state::entry_of(after, directory, name) == state::entry_of(named, directory, name),
{
    assert forall|directory: u64, name: Seq<char>| #[trigger]
        state::entry_of(after, directory, name) == state::entry_of(named, directory, name) by {
        let key = dir::entry_key(directory, name);
        assert(after.inodes.contains_key(key) == named.inodes.contains_key(key));
    }
}

/// A removed name is gone; all other names are as they were, and so are all files
/// but the one whose name it was.
#[verifier::spinoff_prover]
#[verifier::rlimit(60)]
pub proof fn law_unlinked_name_is_gone(
    before: VolumeState,
    after: VolumeState,
    directory: u64,
    name: Seq<char>,
    inode: BafsInode,
)
    requires
        before.ok(),
        state::entry_of(before, directory, name) is Some,
        unlinking::unlinked(before, after, directory, name, inode),
    ensures
        state::entry_of(after, directory, name) is None,
        forall|other: u64, other_name: Seq<char>|
            other != directory || other_name != name ==> #[trigger] state::entry_of(
                after,
                other,
                other_name,
            ) == state::entry_of(before, other, other_name),
        forall|other: u64|
            other != inode.inode_number ==> #[trigger] same_file(before, after, other),
{
    let named = state::without_name(before, directory, name);
    state::lemma_without_entry(before, directory, name);
    lemma_names_after_unlink(named, after, inode);
    assert forall|key: BafsKey|
        key != dir::entry_key(directory, name) && !unlinking::belongs_to_file(
            key,
            inode.inode_number,
        ) implies #[trigger] after.inodes.contains_key(key) == before.inodes.contains_key(key) && (
    before.inodes.contains_key(key) ==> after.inodes[key] == before.inodes[key]) by {
        assert(named.inodes.contains_key(key) == before.inodes.contains_key(key));
    }
    assert forall|other: u64| other != inode.inode_number implies #[trigger] same_file(
        before,
        after,
        other,
    ) by {
        lemma_file_stays(
            before,
            after,
            inode.inode_number,
            dir::entry_key(directory, name),
            other,
        );
    }
}

/// Once the last name of a file is gone, so is the file, and its blocks are free.
pub proof fn law_last_unlink_frees_file(
    before: VolumeState,
    after: VolumeState,
    directory: u64,
    name: Seq<char>,
    inode: BafsInode,
)
    requires
        before.ok(),
        state::entry_of(before, directory, name) is Some,
        inode.hard_link_count <= 1,
        unlinking::unlinked(before, after, directory, name, inode),
    ensures
        !after.inodes.contains_key(inode::inode_key(inode.inode_number)),
        forall|key: BafsKey, address: u64|
            key.object_id == inode.inode_number && #[trigger] before.uses(key, address)
                ==> extent::is_free(after.free, address),
        forall|address: u64| #[trigger]
            extent::is_free(before.free, address) ==> extent::is_free(after.free, address),
{
    let named = state::without_name(before, directory, name);
    assert(!after.inodes.contains_key(inode::inode_key(inode.inode_number)));
    assert forall|key: BafsKey, address: u64|
        key.object_id == inode.inode_number && #[trigger] before.uses(
            key,
            address,
        ) implies extent::is_free(after.free, address) by {
        assert(named.uses(key, address));
        assert(unlinking::file_uses(named, inode.inode_number, address));
    }
}

/// Data goes to free blocks only: no block that holds anything is overwritten.
pub proof fn law_write_fills_free_blocks_only(
    before: VolumeState,
    after: VolumeState,
    inode_number: u64,
    offset: u64,
    data: Seq<u8>,
    generation: u64,
    item: LeafEntry,
)
    requires
        before.ok(),
        writing::file_written(before, after, inode_number, offset, data, generation, item),
        data.len() > 0,
        block_io::blocks_for(data.len()) <= u64::MAX,
    ensures
        forall|address: u64| #[trigger]
            after.data[address] != before.data[address] ==> extent::is_free(before.free, address),
        forall|address: u64| #[trigger]
            extent::is_free(after.free, address) ==> extent::is_free(before.free, address),
{
    let count = block_io::blocks_for(data.len());
    let taken = state::with_blocks_taken(before, item, count as u64);
    state::lemma_take_blocks(before, item, count as u64);
    state::lemma_with_data(taken, item.key.offset, data, count, count);
    extent::law_allocation_takes_free_blocks(before.free, item, count as u64);
}

/// What can be read from a volume depends on its contents alone: not on where its
/// trees are, nor on what has been committed.
pub proof fn law_contents_determine_reads(
    left: VolumeModel,
    right: VolumeModel,
    inode_number: u64,
    offset: u64,
    length: nat,
    name: Seq<char>,
    index: int,
)
    requires
        left.in_order(),
        right.in_order(),
        left.state() == right.state(),
    ensures
        inode_in(left, inode_number) == inode_in(right, inode_number),
        reading::file_read(left, inode_number, offset, length) == reading::file_read(
            right,
            inode_number,
            offset,
            length,
        ),
        reading::lookup_in(left, inode_number, name) == reading::lookup_in(
            right,
            inode_number,
            name,
        ),
        dir::directory_entry_at(
            left.blocks(),
            left.superblock.inode_tree_root_block,
            inode_number,
            index,
        ) == dir::directory_entry_at(
            right.blocks(),
            right.superblock.inode_tree_root_block,
            inode_number,
            index,
        ),
{
    law_same_file_reads_the_same(right, left, inode_number, offset, length);
    let left_root = left.superblock.inode_tree_root_block;
    let right_root = right.superblock.inode_tree_root_block;
    let key = dir::entry_key(inode_number, name);
    volume_model::lemma_tree_lookup(left, left_root, key);
    volume_model::lemma_tree_lookup(right, right_root, key);
    assert(model::tree_map(left.blocks(), left_root) == left.state().inodes);
    assert(model::tree_map(right.blocks(), right_root) == right.state().inodes);
    model::lemma_same_range(
        left.blocks(),
        left_root,
        right.blocks(),
        right_root,
        BafsKey { object_id: inode_number, item_type: ITEM_TYPE_DIRECTORY_ENTRY, offset: 0 },
        BafsKey { object_id: inode_number, item_type: ITEM_TYPE_DIRECTORY_ENTRY, offset: u64::MAX },
    );
}

/// A device that was formatted can be mounted, and holds an empty volume.
pub proof fn law_formatted_device_mounts(
    disk: Seq<u8>,
    total_block_count: u64,
    options: BafsFormatOptions,
)
    requires
        formatting::formatted(disk, total_block_count, options),
    ensures
        mounting::mount_result(disk) is Ok,
        ({
            let volume = mounting::mount_result(disk)->Ok_0;
            &&& volume.in_order()
            &&& mounting::anchored(volume)
            &&& formatting::is_new_volume(volume.state())
            &&& inode_in(volume, 1) is Ok
            &&& inode_in(volume, 1)->Ok_0.spec_is_directory()
            &&& unlinking::is_empty_directory(volume.state(), 1)
        }),
{
    let found = superblock::superblock_at(disk, 1)->Ok_0;
    let volume = volume_model::mounted_model(disk, found);
    volume_model::lemma_area_bounds(total_block_count);
    assert(mounting::mount_result(disk) == Ok::<VolumeModel, BafsError>(volume));
    writing::lemma_inode_record(volume, 1);
    let root = inode_in(volume, 1)->Ok_0;
    assert(volume.state().inodes.contains_key(inode::inode_key(1)));
    assert((0o040755u32 & 0o170000) == 0o040000) by (bit_vector);
    assert(root.posix_mode == 0o040755u32);
}

/// What was committed is read back after the volume is mounted again.
pub proof fn law_committed_contents_survive_remount(
    before: VolumeModel,
    after: VolumeModel,
    reliable: bool,
    entries: Seq<BlockWrite>,
    inode_number: u64,
    offset: u64,
    length: nat,
    name: Seq<char>,
)
    requires
        before.in_order(),
        mounting::anchored(before),
        before.next_transaction < u64::MAX - 1,
        mounting::commit_of(before, after, reliable, entries, Ok(())),
    ensures
        mounting::mount_result(after.disk) is Ok,
        ({
            let mounted = mounting::mount_result(after.disk)->Ok_0;
            &&& mounted.in_order()
            &&& mounting::anchored(mounted)
            &&& mounted.state() == before.state()
            &&& reading::file_read(mounted, inode_number, offset, length) == reading::file_read(
                before,
                inode_number,
                offset,
                length,
            )
            &&& reading::lookup_in(mounted, inode_number, name) == reading::lookup_in(
                before,
                inode_number,
                name,
            )
        }),
{
    mounting::law_commit_keeps_contents(before, after, reliable, entries);
    law_contents_determine_reads(after, before, inode_number, offset, length, name, 0);
}

/// A damaged byte in a block of a file is detected when the block is read: what
/// is reported is the block, and no data.
pub proof fn law_damaged_file_block_is_detected(
    volume: VolumeModel,
    damaged: VolumeModel,
    key: BafsKey,
    address: u64,
    position: int,
)
    requires
        volume.in_order(),
        volume.state().uses(key, address),
        damaged.superblock == volume.superblock,
        damaged.blocks().dom() == volume.blocks().dom(),
        forall|other: u64|
            other != address ==> #[trigger] damaged.blocks()[other] == volume.blocks()[other],
        damaged.blocks()[address].len() == 4096,
        0 <= position < 4096,
        damaged.blocks()[address][position] != volume.blocks()[address][position],
        forall|i: int|
            0 <= i < 4096 && i != position ==> damaged.blocks()[address][i]
                == volume.blocks()[address][i],
    ensures
        reading::data_block(damaged, address as int) == Err::<Seq<u8>, BafsError>(
            BafsError::InvalidChecksum { block_address: address },
        ),
{
    let contents = volume.state();
    let root = volume.superblock.checksum_tree_root_block;
    let start = volume.node_area_start();
    let next = volume.next_free as int;
    assert(contents.inodes.contains_key(key));
    assert(contents.record_ok(key, contents.inodes[key]));
    assert(contents.is_data_block(address));
    assert(contents.checksum_matches(address));
    assert(contents.data[address] == volume.blocks()[address]);
    assert(model::agree(volume.blocks(), damaged.blocks(), start, next)) by {
        assert forall|other: u64|
            start <= other < next implies #[trigger] volume.blocks().contains_key(other)
            == damaged.blocks().contains_key(other) && (volume.blocks().contains_key(other)
            ==> volume.blocks()[other] == damaged.blocks()[other]) by {
            assert(other != address);
            assert(damaged.blocks().dom().contains(other) == volume.blocks().dom().contains(other));
        }
    }
    model::lemma_tree_agrees(volume.blocks(), damaged.blocks(), root, start, next, next);
    volume_model::lemma_tree_lookup(volume, root, checksum_tree::checksum_key(address));
    checksum_tree::law_stored_checksum_tells_blocks_apart(
        address,
        volume.blocks()[address],
        damaged.blocks()[address],
        position,
    );
    assert(damaged.blocks().dom().contains(address));
}

} // verus!
