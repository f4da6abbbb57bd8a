//! What single bytes of a file are: a read gives them one by one, whatever it reads
//! besides, and a write changes those that it writes.

use vstd::prelude::*;
use crate::block_io;
use crate::btree::key::BafsKey;
use crate::btree::node::LeafEntry;
use crate::dir;
use crate::error::BafsError;
use crate::extent;
use crate::extent::BafsExtentData;
use crate::inode;
use crate::inode::BafsInode;
use crate::state;
use crate::state::VolumeState;
use super::durability;
use super::laws;
use super::naming;
use super::reading;
use super::writing;
use super::{inode_in, VolumeModel};

verus! {

/// Of the extents of a file that cover a position, the one at `start` begins first.
pub open spec fn held_by(
    contents: VolumeState,
    inode_number: u64,
    start: u64,
    position: u64,
) -> bool {
    &&& extent::covering(contents.inodes, inode_number, start, position)
    &&& forall|other: u64|
        other < start ==> !#[trigger] extent::covering(
            contents.inodes,
            inode_number,
            other,
            position,
        )
}

/// Some extent of the file covers the position.
pub open spec fn is_held(contents: VolumeState, inode_number: u64, position: u64) -> bool {
    exists|start: u64| #[trigger] held_by(contents, inode_number, start, position)
}

/// The byte that the extent at `start` holds for a position.
pub open spec fn byte_in_extent(
    contents: VolumeState,
    inode_number: u64,
    start: u64,
    position: u64,
) -> u8 {
    let found = contents.extent_at(extent::extent_key(inode_number, start));
    let within = position - start;
    contents.data[(found.first_disk_block + within / 4096) as u64][within % 4096]
}

/// The byte of a file at a position, where some extent covers it.
pub open spec fn byte_at(contents: VolumeState, inode_number: u64, position: u64) -> u8 {
    byte_in_extent(
        contents,
        inode_number,
        choose|start: u64| #[trigger] held_by(contents, inode_number, start, position),
        position,
    )
}

/// The bytes of a file from `from` up to `to`.
pub open spec fn bytes_of(
    contents: VolumeState,
    inode_number: u64,
    from: int,
    to: int,
) -> Seq<u8> {
    Seq::new(
        (to - from) as nat,
        |i: int| byte_at(contents, inode_number, (from + i) as u64),
    )
}

/// Only one extent holds a position.
proof fn lemma_held_once(
    contents: VolumeState,
    inode_number: u64,
    start: u64,
    position: u64,
)
    requires
        held_by(contents, inode_number, start, position),
    ensures
        is_held(contents, inode_number, position),
        byte_at(contents, inode_number, position) == byte_in_extent(
            contents,
            inode_number,
            start,
            position,
        ),
{
    let other = choose|other: u64| #[trigger] held_by(contents, inode_number, other, position);
    assert(held_by(contents, inode_number, other, position));
    if other < start {
        assert(!extent::covering(contents.inodes, inode_number, other, position));
    } else if start < other {
        assert(!extent::covering(contents.inodes, inode_number, start, position));
    }
}

/// Where an extent covers a position, one begins first.
proof fn lemma_first_holder(
    contents: VolumeState,
    inode_number: u64,
    start: u64,
    position: u64,
) -> (first: u64)
    requires
        extent::covering(contents.inodes, inode_number, start, position),
    ensures
        first <= start,
        held_by(contents, inode_number, first, position),
        is_held(contents, inode_number, position),
    decreases start,
{
    if held_by(contents, inode_number, start, position) {
        start
    } else {
        let other = choose|other: u64|
            other < start && #[trigger] extent::covering(
                contents.inodes,
                inode_number,
                other,
                position,
            );
        lemma_first_holder(contents, inode_number, other, position)
    }
}

/// What a read of a position finds.
proof fn lemma_extent_of(volume: VolumeModel, inode_number: u64, position: u64)
    requires
        volume.in_order(),
    ensures
        match reading::extent_of(volume, inode_number, position) {
            Ok(found) => {
                let start = found.logical_byte_offset;
                &&& held_by(volume.state(), inode_number, start, position)
                &&& found == volume.state().extent_at(extent::extent_key(inode_number, start))
                &&& start <= position
                &&& (position - start) / 4096 < found.block_count
                &&& is_held(volume.state(), inode_number, position)
            },
            Err(error) => {
                &&& error == BafsError::CorruptedStructure
                &&& !is_held(volume.state(), inode_number, position)
            },
        },
{
    let contents = volume.state();
    let root = volume.superblock.inode_tree_root_block;
    laws::lemma_extent_records(volume, inode_number);
    extent::lemma_found_extent_is_recorded(volume.blocks(), root, inode_number, position);
    if is_held(contents, inode_number, position) {
        let start = choose|start: u64| #[trigger]
            held_by(contents, inode_number, start, position);
        extent::lemma_extent_found(volume.blocks(), root, inode_number, start, position);
        let key = extent::extent_key(inode_number, start);
        assert(contents.record_ok(key, contents.inodes[key]));
    } else if reading::extent_of(volume, inode_number, position) is Ok {
        let start = choose|start: u64| #[trigger]
            extent::covering(contents.inodes, inode_number, start, position)
                && reading::extent_of(volume, inode_number, position)->Ok_0
                == extent::extent_from(
                contents.inodes[extent::extent_key(inode_number, start)],
            );
        let _ = lemma_first_holder(contents, inode_number, start, position);
    }
}

/// The positions of one block are held by the same extent.
proof fn lemma_same_holder(
    contents: VolumeState,
    inode_number: u64,
    start: u64,
    from: u64,
    position: u64,
)
    requires
        contents.ok(),
        held_by(contents, inode_number, start, from),
        start <= from <= position,
        (position - start) / 4096 == (from - start) / 4096,
    ensures
        held_by(contents, inode_number, start, position),
{
    let key = extent::extent_key(inode_number, start);
    assert(contents.record_ok(key, contents.inodes[key]));
    assert forall|other: u64| other < start implies !#[trigger] extent::covering(
        contents.inodes,
        inode_number,
        other,
        position,
    ) by {
        assert(!extent::covering(contents.inodes, inode_number, other, from));
        let other_key = extent::extent_key(inode_number, other);
        if contents.inodes.contains_key(other_key) {
            assert(contents.record_ok(other_key, contents.inodes[other_key]));
            let found = extent::extent_from(contents.inodes[other_key]);
            assert((from - other) / 4096 <= (position - other) / 4096);
        }
    }
}

/// A block that an extent holds is read from the data.
proof fn lemma_block_of_extent(
    volume: VolumeModel,
    inode_number: u64,
    start: u64,
    position: u64,
)
    requires
        volume.in_order(),
        held_by(volume.state(), inode_number, start, position),
    ensures
        ({
            let found = volume.state().extent_at(extent::extent_key(inode_number, start));
            let address = found.first_disk_block + (position - start) / 4096;
            &&& found.logical_byte_offset == start
            &&& start <= position
            &&& address <= u64::MAX
            &&& volume.state().uses(extent::extent_key(inode_number, start), address as u64)
            &&& reading::data_block(volume, address) == Ok::<Seq<u8>, BafsError>(
                volume.state().data[address as u64],
            )
            &&& volume.state().data[address as u64].len() == 4096
        }),
{
    let key = extent::extent_key(inode_number, start);
    let contents = volume.state();
    assert(contents.record_ok(key, contents.inodes[key]));
    let found = contents.extent_at(key);
    let address = (found.first_disk_block + (position - start) / 4096) as u64;
    assert(contents.uses(key, address));
    laws::lemma_file_block(volume, key, address);
}

/// A span is read byte by byte.
#[verifier::spinoff_prover]
#[verifier::rlimit(40)]
proof fn lemma_span(volume: VolumeModel, inode_number: u64, from: int, to: int)
    requires
        volume.in_order(),
        0 <= from <= to <= u64::MAX,
    ensures
        (forall|p: u64| from <= p < to ==> #[trigger] is_held(volume.state(), inode_number, p))
            ==> reading::read_span(volume, inode_number, from, to) == Ok::<Seq<u8>, BafsError>(
            bytes_of(volume.state(), inode_number, from, to),
        ),
        !(forall|p: u64| from <= p < to ==> #[trigger] is_held(volume.state(), inode_number, p))
            ==> reading::read_span(volume, inode_number, from, to) == Err::<Seq<u8>, BafsError>(
            BafsError::CorruptedStructure,
        ),
    decreases to - from,
{
    let contents = volume.state();
    if from == to {
        assert(bytes_of(contents, inode_number, from, to) =~= Seq::<u8>::empty());
    } else {
        let position = from as u64;
        lemma_extent_of(volume, inode_number, position);
        if let Ok(found) = reading::extent_of(volume, inode_number, position) {
            let start = found.logical_byte_offset;
            let within = from - start;
            let count = if to - from < 4096 - within % 4096 {
                to - from
            } else {
                4096 - within % 4096
            };
            lemma_block_of_extent(volume, inode_number, start, position);
            let address = (found.first_disk_block + within / 4096) as u64;
            let piece = contents.data[address].subrange(within % 4096, within % 4096 + count);
            assert forall|p: u64| from <= p < from + count implies #[trigger] is_held(
                contents,
                inode_number,
                p,
            ) && byte_at(contents, inode_number, p) == piece[p - from] by {
                assert((p - start) / 4096 == within / 4096 && (p - start) % 4096 == within % 4096
                    + (p - from)) by {
                    vstd::arithmetic::div_mod::lemma_fundamental_div_mod_converse(
                        p - start,
                        4096,
                        within / 4096,
                        within % 4096 + (p - from),
                    );
                }
                lemma_same_holder(contents, inode_number, start, position, p);
                lemma_held_once(contents, inode_number, start, p);
            }
            lemma_span(volume, inode_number, from + count, to);
            let rest = bytes_of(contents, inode_number, from + count, to);
            let whole = bytes_of(contents, inode_number, from, to);
            if forall|p: u64| from <= p < to ==> #[trigger] is_held(contents, inode_number, p) {
                assert(whole =~= piece + rest) by {
                    assert forall|i: int| 0 <= i < to - from implies whole[i] == (piece + rest)[i] by {
                        let p = (from + i) as u64;
                        if i < count {
                            assert(is_held(contents, inode_number, p));
                        }
                    }
                }
            } else {
                let gap = choose|p: u64|
                    from <= p < to && !#[trigger] is_held(contents, inode_number, p);
                assert(from + count <= gap);
            }
        }
    }
}

/// What is read in front, and what is read behind it. Where one of the reads fails,
/// so does the whole.
pub open spec fn joined(
    front: Result<Seq<u8>, BafsError>,
    rest: Result<Seq<u8>, BafsError>,
) -> Result<Seq<u8>, BafsError> {
    match (front, rest) {
        (Err(error), _) => Err(error),
        (Ok(_), Err(error)) => Err(error),
        (Ok(front), Ok(rest)) => Ok(front + rest),
    }
}

/// Two spans side by side are read as one.
proof fn lemma_spans_join(volume: VolumeModel, inode_number: u64, from: int, middle: int, to: int)
    requires
        volume.in_order(),
        0 <= from <= middle <= to <= u64::MAX,
    ensures
        reading::read_span(volume, inode_number, from, to) == joined(
            reading::read_span(volume, inode_number, from, middle),
            reading::read_span(volume, inode_number, middle, to),
        ),
{
    let contents = volume.state();
    lemma_span(volume, inode_number, from, to);
    lemma_span(volume, inode_number, from, middle);
    lemma_span(volume, inode_number, middle, to);
    let all = forall|p: u64| from <= p < to ==> #[trigger] is_held(contents, inode_number, p);
    if all {
        assert(bytes_of(contents, inode_number, from, to) =~= bytes_of(
            contents,
            inode_number,
            from,
            middle,
        ) + bytes_of(contents, inode_number, middle, to));
    } else {
        let gap = choose|p: u64| from <= p < to && !#[trigger] is_held(contents, inode_number, p);
        assert(!is_held(contents, inode_number, gap));
    }
}

/// A read of two ranges that lie side by side is the read of the first, followed by
/// the read of the second, wherever the file is cut and whatever extents hold it.
pub proof fn law_read_is_the_sum_of_its_parts(
    volume: VolumeModel,
    inode_number: u64,
    offset: u64,
    first: nat,
    second: nat,
)
    requires
        volume.in_order(),
        offset + first <= u64::MAX,
    ensures
        reading::file_read(volume, inode_number, offset, first + second) == joined(
            reading::file_read(volume, inode_number, offset, first),
            reading::file_read(volume, inode_number, (offset + first) as u64, second),
        ),
{
    let whole = reading::file_read(volume, inode_number, offset, first + second);
    let rest = reading::file_read(volume, inode_number, (offset + first) as u64, second);
    let front = reading::file_read(volume, inode_number, offset, first);
    if first == 0 {
        if rest is Ok {
            assert(Seq::<u8>::empty() + rest->Ok_0 =~= rest->Ok_0);
        }
    } else if second == 0 {
        if front is Ok {
            assert(front->Ok_0 + Seq::<u8>::empty() =~= front->Ok_0);
        }
    } else if let Ok(inode) = inode_in(volume, inode_number) {
        let size = inode.file_size_in_bytes as int;
        if inode.spec_is_regular_file() && offset < size {
            let to = if offset + first + second < size {
                offset + first + second
            } else {
                size
            };
            let middle = if offset + first < size {
                offset + first
            } else {
                size
            };
            lemma_spans_join(volume, inode_number, offset as int, middle, to);
            if offset + first >= size {
                if front is Ok {
                    assert(front->Ok_0 + Seq::<u8>::empty() =~= front->Ok_0);
                }
            }
        } else if inode.spec_is_regular_file() {
            assert(Seq::<u8>::empty() + Seq::<u8>::empty() =~= Seq::<u8>::empty());
        }
    }
}

/// How much a read gives: as many bytes as were asked for, or fewer where the file
/// ends before.
pub open spec fn read_length(size: u64, offset: u64, length: nat) -> nat {
    if offset >= size {
        0
    } else if offset + length <= size {
        length
    } else {
        (size - offset) as nat
    }
}

/// What a read gives at a position depends on that position alone: each byte of it is
/// the one that a read of that byte gives.
pub proof fn law_read_is_bytewise(
    volume: VolumeModel,
    inode_number: u64,
    offset: u64,
    length: nat,
    position: u64,
)
    requires
        volume.in_order(),
        length > 0,
        reading::file_read(volume, inode_number, offset, length) is Ok,
    ensures
        inode_in(volume, inode_number) is Ok,
        ({
            let found = reading::file_read(volume, inode_number, offset, length)->Ok_0;
            let size = inode_in(volume, inode_number)->Ok_0.file_size_in_bytes;
            &&& found.len() == read_length(size, offset, length)
            &&& offset <= position < offset + found.len() ==> reading::file_read(
                volume,
                inode_number,
                position,
                1,
            ) == Ok::<Seq<u8>, BafsError>(seq![found[position - offset]])
        }),
{
    let contents = volume.state();
    let size = inode_in(volume, inode_number)->Ok_0.file_size_in_bytes;
    if offset < size {
        let to = offset + read_length(size, offset, length);
        lemma_span(volume, inode_number, offset as int, to);
        let found = reading::file_read(volume, inode_number, offset, length)->Ok_0;
        if offset <= position < to {
            assert(is_held(contents, inode_number, position));
            lemma_span(volume, inode_number, position as int, position + 1);
            assert(bytes_of(contents, inode_number, position as int, position + 1) =~= seq![
                found[position - offset],
            ]);
        }
    }
}

/// A read fails only where a byte of it cannot be read.
pub proof fn law_read_fails_with_a_byte(
    volume: VolumeModel,
    inode_number: u64,
    offset: u64,
    length: nat,
)
    requires
        volume.in_order(),
        inode_in(volume, inode_number) is Ok,
        inode_in(volume, inode_number)->Ok_0.spec_is_regular_file(),
        forall|position: u64|
            offset <= position < offset + length ==> (#[trigger] reading::file_read(
                volume,
                inode_number,
                position,
                1,
            )) is Ok,
    ensures
        reading::file_read(volume, inode_number, offset, length) is Ok,
{
    let contents = volume.state();
    let size = inode_in(volume, inode_number)->Ok_0.file_size_in_bytes;
    if length > 0 && offset < size {
        let to = offset + read_length(size, offset, length);
        assert forall|p: u64| offset <= p < to implies #[trigger] is_held(
            contents,
            inode_number,
            p,
        ) by {
            assert(reading::file_read(volume, inode_number, p, 1) is Ok);
            lemma_span(volume, inode_number, p as int, p + 1);
        }
        lemma_span(volume, inode_number, offset as int, to);
    }
}

/// A byte before the end of a file is read from the extent that begins first among
/// those that cover it: from the block as many blocks behind the extent's first one as
/// the byte is behind the extent's start. Where none covers it, nothing is read.
pub proof fn law_byte_is_read_from_its_extent(
    volume: VolumeModel,
    inode_number: u64,
    position: u64,
    start: u64,
)
    requires
        volume.in_order(),
        inode_in(volume, inode_number) is Ok,
        inode_in(volume, inode_number)->Ok_0.posix_mode & 0o170000 == 0o100000,
        position < inode_in(volume, inode_number)->Ok_0.file_size_in_bytes,
    ensures
        held_by(volume.state(), inode_number, start, position) ==> {
            let key = extent::extent_key(inode_number, start);
            let found = extent::extent_from(volume.state().inodes[key]);
            let block = (found.first_disk_block + (position - start) / 4096) as u64;
            &&& start <= position < start + 4096 * found.block_count
            &&& reading::file_read(volume, inode_number, position, 1) == Ok::<
                Seq<u8>,
                BafsError,
            >(seq![volume.blocks()[block][(position - start) % 4096]])
        },
        (forall|other: u64|
            !#[trigger] extent::covering(
                volume.state().inodes,
                inode_number,
                other,
                position,
            )) ==> reading::file_read(volume, inode_number, position, 1) == Err::<
            Seq<u8>,
            BafsError,
        >(BafsError::CorruptedStructure),
{
    let contents = volume.state();
    assert(inode_in(volume, inode_number)->Ok_0.spec_is_regular_file());
    lemma_span(volume, inode_number, position as int, position + 1);
    if held_by(contents, inode_number, start, position) {
        let chosen = choose|start: u64| #[trigger]
            held_by(contents, inode_number, start, position);
        assert(chosen == start);
        assert(bytes_of(contents, inode_number, position as int, position + 1) =~= seq![
            byte_at(contents, inode_number, position),
        ]);
        let key = extent::extent_key(inode_number, start);
        let found = extent::extent_from(contents.inodes[key]);
        let block = (found.first_disk_block + (position - start) / 4096) as u64;
        assert(contents.record_ok(key, contents.inodes[key]));
        assert(contents.is_data_block(block));
        assert forall|p: u64| position <= p < position + 1 implies #[trigger] is_held(
            contents,
            inode_number,
            p,
        ) by {
            assert(held_by(contents, inode_number, start, p));
        }
    } else if forall|other: u64|
        !#[trigger] extent::covering(contents.inodes, inode_number, other, position) {
        assert(!is_held(contents, inode_number, position));
    }
}

/// The extent that a write adds.
spec fn written_extent(offset: u64, data: Seq<u8>, item: LeafEntry) -> BafsExtentData {
    BafsExtentData {
        logical_byte_offset: offset,
        first_disk_block: item.key.offset,
        block_count: block_io::blocks_for(data.len()) as u64,
        extent_flags: 0,
        reserved: 0,
    }
}

/// Which extents a file has once it was written to.
proof fn lemma_covering_after_write(
    before: VolumeState,
    after: VolumeState,
    inode_number: u64,
    offset: u64,
    data: Seq<u8>,
    generation: u64,
    item: LeafEntry,
)
    requires
        before.ok(),
        writing::file_written(before, after, inode_number, offset, data, generation, item),
        data.len() > 0,
        offset + data.len() <= u64::MAX,
    ensures
        forall|start: u64, position: u64|
            start != offset ==> #[trigger] extent::covering(
                after.inodes,
                inode_number,
                start,
                position,
            ) == extent::covering(before.inodes, inode_number, start, position),
        forall|position: u64| #[trigger]
            extent::covering(after.inodes, inode_number, offset, position) == (offset <= position
                < offset + 4096 * block_io::blocks_for(data.len())),
        forall|start: u64|
            start != offset && before.inodes.contains_key(
                extent::extent_key(inode_number, start),
            ) ==> #[trigger] after.extent_at(extent::extent_key(inode_number, start))
                == before.extent_at(extent::extent_key(inode_number, start)),
        after.extent_at(extent::extent_key(inode_number, offset)) == written_extent(
            offset,
            data,
            item,
        ),
        forall|key: BafsKey, address: u64| #[trigger]
            before.uses(key, address) ==> after.data[address] == before.data[address],
        forall|index: int|
            0 <= index < block_io::blocks_for(data.len())
                ==> #[trigger] after.data[(item.key.offset + index) as u64] == block_io::block_of(
                data,
                index,
            ),
{
    let count = block_io::blocks_for(data.len());
    let first = item.key.offset;
    let taken = state::with_blocks_taken(before, item, count as u64);
    let stored = state::with_data(taken, first, data, count);
    let written = written_extent(offset, data, item);
    state::lemma_take_blocks(before, item, count as u64);
    state::lemma_with_data(taken, first, data, count, count);
    extent::law_extent_round_trip(written);
    let key = extent::extent_key(inode_number, offset);
    assert(after.inodes[key] == extent::extent_bytes(written));
    assert(stored.inodes == before.inodes);
    assert forall|start: u64| start != offset implies #[trigger] after.inodes.contains_key(
        extent::extent_key(inode_number, start),
    ) == before.inodes.contains_key(extent::extent_key(inode_number, start)) && (
    before.inodes.contains_key(extent::extent_key(inode_number, start)) ==> after.inodes[
        extent::extent_key(inode_number, start)] == before.inodes[extent::extent_key(
        inode_number,
        start,
    )]) by {
        let other = extent::extent_key(inode_number, start);
        assert(other != key);
        assert(other != inode::inode_key(inode_number));
    }
    assert forall|start: u64, position: u64| start != offset implies #[trigger] extent::covering(
        after.inodes,
        inode_number,
        start,
        position,
    ) == extent::covering(before.inodes, inode_number, start, position) by {
        assert(after.inodes.contains_key(extent::extent_key(inode_number, start))
            == before.inodes.contains_key(extent::extent_key(inode_number, start)));
    }
    assert forall|start: u64|
        start != offset && before.inodes.contains_key(
            extent::extent_key(inode_number, start),
        ) implies #[trigger] after.extent_at(extent::extent_key(inode_number, start))
        == before.extent_at(extent::extent_key(inode_number, start)) by {
        assert(after.inodes.contains_key(extent::extent_key(inode_number, start)));
    }
    assert forall|used: BafsKey, address: u64| #[trigger]
        before.uses(used, address) implies after.data[address] == before.data[address] by {
        assert(taken.uses(used, address));
    }
    assert forall|index: int| 0 <= index < count implies #[trigger] after.data[(first
        + index) as u64] == block_io::block_of(data, index) by {
        let address = (first + index) as u64;
        assert(stored.data[address] == block_io::block_of(data, address - first));
    }
}

/// What a read of one byte gives.
proof fn lemma_read_of_one(volume: VolumeModel, inode_number: u64, position: u64)
    requires
        volume.in_order(),
        inode_in(volume, inode_number) is Ok,
        inode_in(volume, inode_number)->Ok_0.spec_is_regular_file(),
        position < inode_in(volume, inode_number)->Ok_0.file_size_in_bytes,
    ensures
        reading::file_read(volume, inode_number, position, 1) == if is_held(
            volume.state(),
            inode_number,
            position,
        ) {
            Ok::<Seq<u8>, BafsError>(seq![byte_at(volume.state(), inode_number, position)])
        } else {
            Err::<Seq<u8>, BafsError>(BafsError::CorruptedStructure)
        },
{
    lemma_span(volume, inode_number, position as int, position + 1);
    assert(bytes_of(volume.state(), inode_number, position as int, position + 1) =~= seq![
        byte_at(volume.state(), inode_number, position),
    ]);
    assert forall|p: u64| position <= p < position + 1 implies #[trigger] is_held(
        volume.state(),
        inode_number,
        p,
    ) == is_held(volume.state(), inode_number, position) by {
        assert(p == position);
    }
}

/// What a write that succeeded made of the file's inode, and the extent that it
/// filled.
pub proof fn lemma_written(
    before: VolumeModel,
    after: VolumeModel,
    reliable: bool,
    inode_number: u64,
    offset: u64,
    data: Seq<u8>,
    outcome: Result<usize, BafsError>,
) -> (item: LeafEntry)
    requires
        before.in_order(),
        data.len() > 0,
        offset + data.len() <= u64::MAX,
        outcome is Ok,
        writing::write_outcome(before, after, reliable, inode_number, offset, data, outcome),
    ensures
        after.in_order(),
        outcome->Ok_0 == data.len(),
        writing::file_written(
            before.state(),
            after.state(),
            inode_number,
            offset,
            data,
            before.next_transaction,
            item,
        ),
        inode_in(before, inode_number) is Ok,
        inode_in(before, inode_number)->Ok_0.spec_is_regular_file(),
        inode_in(after, inode_number) is Ok,
        inode_in(after, inode_number)->Ok_0.spec_is_regular_file(),
        ({
            let old_inode = inode_in(before, inode_number)->Ok_0;
            let new_inode = inode_in(after, inode_number)->Ok_0;
            let end = offset + data.len();
            &&& new_inode.file_size_in_bytes == if old_inode.file_size_in_bytes < end {
                end
            } else {
                old_inode.file_size_in_bytes as int
            }
            &&& new_inode.allocated_block_count == old_inode.allocated_block_count + (data.len()
                + 4095) / 4096
            &&& new_inode.generation == before.next_transaction
        }),
{
    assert(writing::write_refusal(before, inode_number, data.len()) is None);
    let item = choose|item: LeafEntry| #[trigger]
        writing::file_written(
            before.state(),
            after.state(),
            inode_number,
            offset,
            data,
            before.next_transaction,
            item,
        );
    laws::lemma_grown_inode(
        before,
        after,
        inode_number,
        offset,
        data,
        before.next_transaction,
        item,
    );
    item
}

/// The inode of a file after a write: the size is that of the file or the end of what
/// was written, whichever is greater; the blocks that were written are counted; the
/// transaction is noted; and everything else is as it was.
pub proof fn law_write_updates_inode(
    before: VolumeModel,
    after: VolumeModel,
    reliable: bool,
    inode_number: u64,
    offset: u64,
    data: Seq<u8>,
    outcome: Result<usize, BafsError>,
)
    requires
        before.in_order(),
        data.len() > 0,
        offset + data.len() <= u64::MAX,
        outcome is Ok,
        writing::write_outcome(before, after, reliable, inode_number, offset, data, outcome),
    ensures
        outcome->Ok_0 == data.len(),
        inode_in(before, inode_number) is Ok,
        inode_in(after, inode_number) is Ok,
        ({
            let old_inode = inode_in(before, inode_number)->Ok_0;
            let new_inode = inode_in(after, inode_number)->Ok_0;
            let end = offset + data.len();
            &&& old_inode.file_size_in_bytes <= end ==> new_inode.file_size_in_bytes == end
            &&& old_inode.file_size_in_bytes >= end ==> new_inode.file_size_in_bytes
                == old_inode.file_size_in_bytes
            &&& 4096 * (new_inode.allocated_block_count - old_inode.allocated_block_count)
                >= data.len()
            &&& 4096 * (new_inode.allocated_block_count - old_inode.allocated_block_count)
                < data.len() + 4096
            &&& new_inode.generation == before.next_transaction
            &&& new_inode == (BafsInode {
                file_size_in_bytes: new_inode.file_size_in_bytes,
                allocated_block_count: new_inode.allocated_block_count,
                generation: new_inode.generation,
                ..old_inode
            })
        }),
{
    let item = lemma_written(before, after, reliable, inode_number, offset, data, outcome);
    laws::lemma_grown_inode(
        before,
        after,
        inode_number,
        offset,
        data,
        before.next_transaction,
        item,
    );
}

/// An extent that begins before `offset` covers the position.
pub open spec fn hidden(
    contents: VolumeState,
    inode_number: u64,
    offset: u64,
    position: u64,
) -> bool {
    exists|start: u64|
        start < offset && #[trigger] extent::covering(
            contents.inodes,
            inode_number,
            start,
            position,
        )
}

/// Which byte a position has after a write.
#[verifier::spinoff_prover]
#[verifier::rlimit(40)]
proof fn lemma_byte_after_write(
    before: VolumeState,
    after: VolumeState,
    inode_number: u64,
    offset: u64,
    data: Seq<u8>,
    generation: u64,
    item: LeafEntry,
    position: u64,
)
    requires
        before.ok(),
        after.ok(),
        writing::file_written(before, after, inode_number, offset, data, generation, item),
        data.len() > 0,
        offset + data.len() <= u64::MAX,
    ensures
        ({
            let end = offset + 4096 * block_io::blocks_for(data.len());
            if !hidden(before, inode_number, offset, position) && offset <= position < end {
                &&& is_held(after, inode_number, position)
                &&& byte_at(after, inode_number, position) == if position < offset + data.len() {
                    data[position - offset]
                } else {
                    0
                }
            } else {
                hidden(before, inode_number, offset, position) || !extent::covering(
                    before.inodes,
                    inode_number,
                    offset,
                    position,
                ) ==> {
                    &&& is_held(after, inode_number, position) == is_held(
                        before,
                        inode_number,
                        position,
                    )
                    &&& is_held(before, inode_number, position) ==> byte_at(
                        after,
                        inode_number,
                        position,
                    ) == byte_at(before, inode_number, position)
                }
            }
        }),
{
    lemma_covering_after_write(before, after, inode_number, offset, data, generation, item);
    let count = block_io::blocks_for(data.len());
    let end = offset + 4096 * count;
    let key = extent::extent_key(inode_number, offset);
    if !hidden(before, inode_number, offset, position) && offset <= position < end {
        assert(extent::covering(after.inodes, inode_number, offset, position));
        assert(held_by(after, inode_number, offset, position)) by {
            assert forall|other: u64| other < offset implies !#[trigger] extent::covering(
                after.inodes,
                inode_number,
                other,
                position,
            ) by {
                assert(!extent::covering(before.inodes, inode_number, other, position));
            }
        }
        lemma_held_once(after, inode_number, offset, position);
        let index = (position - offset) / 4096;
        assert(0 <= index < count);
        assert(after.data[(item.key.offset + index) as u64] == block_io::block_of(data, index));
        assert(4096 * index + (position - offset) % 4096 == position - offset);
    } else if hidden(before, inode_number, offset, position) || !extent::covering(
        before.inodes,
        inode_number,
        offset,
        position,
    ) {
        if is_held(before, inode_number, position) {
            let start = choose|start: u64| #[trigger]
                held_by(before, inode_number, start, position);
            lemma_kept_holder(
                before,
                after,
                inode_number,
                offset,
                data,
                generation,
                item,
                start,
                position,
            );
        } else if is_held(after, inode_number, position) {
            let start = choose|start: u64| #[trigger]
                held_by(after, inode_number, start, position);
            if start == offset {
                assert(hidden(before, inode_number, offset, position));
                let other = choose|other: u64|
                    other < offset && #[trigger] extent::covering(
                        before.inodes,
                        inode_number,
                        other,
                        position,
                    );
                let _ = lemma_first_holder(before, inode_number, other, position);
            } else {
                assert(extent::covering(before.inodes, inode_number, start, position));
                let _ = lemma_first_holder(before, inode_number, start, position);
            }
        }
    }
}

/// An extent that holds a position and is not replaced holds it after a write.
proof fn lemma_kept_holder(
    before: VolumeState,
    after: VolumeState,
    inode_number: u64,
    offset: u64,
    data: Seq<u8>,
    generation: u64,
    item: LeafEntry,
    start: u64,
    position: u64,
)
    requires
        before.ok(),
        after.ok(),
        writing::file_written(before, after, inode_number, offset, data, generation, item),
        data.len() > 0,
        offset + data.len() <= u64::MAX,
        held_by(before, inode_number, start, position),
        hidden(before, inode_number, offset, position) || !extent::covering(
            before.inodes,
            inode_number,
            offset,
            position,
        ) && !(offset <= position < offset + 4096 * block_io::blocks_for(data.len())),
    ensures
        is_held(after, inode_number, position),
        byte_at(after, inode_number, position) == byte_at(before, inode_number, position),
{
    lemma_covering_after_write(before, after, inode_number, offset, data, generation, item);
    if hidden(before, inode_number, offset, position) {
        let other = choose|other: u64|
            other < offset && #[trigger] extent::covering(
                before.inodes,
                inode_number,
                other,
                position,
            );
        if offset <= start {
            assert(!extent::covering(before.inodes, inode_number, other, position));
        }
    }
    assert(start != offset);
    assert(extent::covering(after.inodes, inode_number, start, position));
    assert(held_by(after, inode_number, start, position)) by {
        assert forall|other: u64| other < start implies !#[trigger] extent::covering(
            after.inodes,
            inode_number,
            other,
            position,
        ) by {
            assert(!extent::covering(before.inodes, inode_number, other, position));
        }
    }
    lemma_held_once(before, inode_number, start, position);
    lemma_held_once(after, inode_number, start, position);
    let key = extent::extent_key(inode_number, start);
    assert(before.record_ok(key, before.inodes[key]));
    let found = before.extent_at(key);
    let address = (found.first_disk_block + (position - start) / 4096) as u64;
    assert(before.uses(key, address));
    assert(after.extent_at(key) == found);
}

/// A write changes the bytes that it writes, and no others. Where nothing that was
/// written before at a lower offset reaches, the bytes are the new ones, and zeros
/// fill the rest of the last block. Bytes before the write, those behind its last
/// block, and those that something at a lower offset holds are read as before, but for
/// what was written at the same offset before, which is given up as a whole.
pub proof fn law_write_changes_its_bytes_only(
    before: VolumeModel,
    after: VolumeModel,
    reliable: bool,
    inode_number: u64,
    offset: u64,
    data: Seq<u8>,
    outcome: Result<usize, BafsError>,
    position: u64,
)
    requires
        before.in_order(),
        data.len() > 0,
        offset + data.len() <= u64::MAX,
        outcome is Ok,
        writing::write_outcome(before, after, reliable, inode_number, offset, data, outcome),
    ensures
        ({
            let old_size = inode_in(before, inode_number)->Ok_0.file_size_in_bytes;
            let new_size = inode_in(after, inode_number)->Ok_0.file_size_in_bytes;
            let was = reading::file_read(before, inode_number, position, 1);
            let is = reading::file_read(after, inode_number, position, 1);
            let under = hidden(before.state(), inode_number, offset, position);
            &&& position < offset && position < old_size ==> is == was
            &&& under && position < old_size ==> is == was
            &&& !under && offset <= position < offset + data.len() ==> is == Ok::<
                Seq<u8>,
                BafsError,
            >(seq![data[position - offset]])
            &&& !under && offset + data.len() <= position < offset + 4096 * ((data.len() + 4095)
                / 4096) && position < new_size ==> is == Ok::<Seq<u8>, BafsError>(seq![0u8])
            &&& offset + 4096 * ((data.len() + 4095) / 4096) <= position < old_size
                && !extent::covering(before.state().inodes, inode_number, offset, position) ==> is
                == was
            &&& position >= new_size ==> is == Ok::<Seq<u8>, BafsError>(Seq::empty())
        }),
{
    let item = lemma_written(before, after, reliable, inode_number, offset, data, outcome);
    let old_size = inode_in(before, inode_number)->Ok_0.file_size_in_bytes;
    let new_size = inode_in(after, inode_number)->Ok_0.file_size_in_bytes;
    lemma_byte_after_write(
        before.state(),
        after.state(),
        inode_number,
        offset,
        data,
        before.next_transaction,
        item,
        position,
    );
    if position < new_size {
        lemma_read_of_one(after, inode_number, position);
    }
    if position < old_size {
        lemma_read_of_one(before, inode_number, position);
    }
    if position < offset && extent::covering(
        before.state().inodes,
        inode_number,
        offset,
        position,
    ) {
        let key = extent::extent_key(inode_number, offset);
        assert(before.state().record_ok(key, before.state().inodes[key]));
    }
}

/// Nothing of the file reaches beyond its size.
pub open spec fn ends_with_its_blocks(volume: VolumeModel, inode_number: u64) -> bool {
    forall|start: u64, position: u64| #[trigger]
        extent::covering(volume.state().inodes, inode_number, start, position) ==> position
            < inode_in(volume, inode_number)->Ok_0.file_size_in_bytes
}

/// Appending to a file puts the new bytes behind the old ones: where nothing of the
/// file reaches beyond its size, every read gives the part of both together that was
/// asked for. Whole blocks that were appended leave the file so that it can be
/// appended to again.
#[verifier::spinoff_prover]
#[verifier::rlimit(40)]
pub proof fn law_append_joins_bytes(
    before: VolumeModel,
    after: VolumeModel,
    reliable: bool,
    inode_number: u64,
    offset: u64,
    data: Seq<u8>,
    outcome: Result<usize, BafsError>,
    old_bytes: Seq<u8>,
    at: u64,
    length: nat,
)
    requires
        before.in_order(),
        data.len() > 0,
        offset + data.len() <= u64::MAX,
        outcome is Ok,
        inode_in(before, inode_number) is Ok,
        inode_in(before, inode_number)->Ok_0.file_size_in_bytes == offset,
        ends_with_its_blocks(before, inode_number),
        old_bytes.len() == offset,
        reading::file_read(before, inode_number, 0, offset as nat) == Ok::<Seq<u8>, BafsError>(
            old_bytes,
        ),
        writing::write_outcome(before, after, reliable, inode_number, offset, data, outcome),
    ensures
        reading::file_read(after, inode_number, at, length) == Ok::<Seq<u8>, BafsError>(
            reading::part_of(old_bytes + data, at, length),
        ),
        data.len() % 4096 == 0 ==> ends_with_its_blocks(after, inode_number),
{
    let item = lemma_written(before, after, reliable, inode_number, offset, data, outcome);
    let size = inode_in(after, inode_number)->Ok_0.file_size_in_bytes;
    let all = old_bytes + data;
    let contents = after.state();
    assert(size == all.len());
    lemma_covering_after_write(
        before.state(),
        contents,
        inode_number,
        offset,
        data,
        before.next_transaction,
        item,
    );
    assert forall|p: u64| p < size implies #[trigger] is_held(contents, inode_number, p)
        && byte_at(contents, inode_number, p) == all[p as int] by {
        lemma_byte_after_write(
            before.state(),
            contents,
            inode_number,
            offset,
            data,
            before.next_transaction,
            item,
            p,
        );
        if p < offset {
            law_read_is_bytewise(before, inode_number, 0, offset as nat, p);
            lemma_read_of_one(before, inode_number, p);
            if extent::covering(before.state().inodes, inode_number, offset, p) {
                let key = extent::extent_key(inode_number, offset);
                assert(before.state().record_ok(key, before.state().inodes[key]));
            }
            assert(seq![byte_at(before.state(), inode_number, p)][0] == seq![old_bytes[p as int]][0]);
        } else {
            assert(!hidden(before.state(), inode_number, offset, p));
        }
    }
    if length > 0 && at < size {
        let to = at + read_length(size, at, length);
        lemma_span(after, inode_number, at as int, to);
        let read = bytes_of(contents, inode_number, at as int, to);
        assert forall|i: int| 0 <= i < read.len() implies read[i] == all[at + i] by {
            assert(is_held(contents, inode_number, (at + i) as u64));
        }
        assert(read =~= reading::part_of(all, at, length));
    } else {
        assert(reading::part_of(all, at, length) =~= Seq::<u8>::empty());
    }
    if data.len() % 4096 == 0 {
        assert forall|start: u64, position: u64| #[trigger]
            extent::covering(contents.inodes, inode_number, start, position) implies position
            < size by {
            if start != offset {
                assert(extent::covering(before.state().inodes, inode_number, start, position));
            }
        }
    }
}

/// A file that was just created can be appended to, and nothing is read from it.
pub proof fn law_new_file_is_empty(
    before: VolumeModel,
    created: VolumeModel,
    reliable: bool,
    directory: u64,
    name: Seq<char>,
    number: u64,
    at: u64,
    length: nat,
)
    requires
        before.in_order(),
        naming::create_outcome(
            before,
            created,
            reliable,
            directory,
            name,
            naming::new_file(),
            Ok(number),
        ),
    ensures
        created.in_order(),
        inode_in(created, number) is Ok,
        inode_in(created, number)->Ok_0.file_size_in_bytes == 0,
        reading::file_read(created, number, at, length) == Ok::<Seq<u8>, BafsError>(
            Seq::empty(),
        ),
        ends_with_its_blocks(created, number),
{
    durability::lemma_new_file_created(before, created, reliable, directory, name, number);
    let contents = created.state();
    assert forall|start: u64, position: u64| !#[trigger] extent::covering(
        contents.inodes,
        number,
        start,
        position,
    ) by {
        let key = extent::extent_key(number, start);
        let middle = choose|middle: VolumeState| #[trigger]
            naming::inode_added(
                before.state(),
                middle,
                before.next_transaction,
                naming::new_file(),
            ) && contents == state::with_record(
                middle,
                dir::entry_key(directory, name),
                naming::record_with_child(before.state(), directory, name, naming::new_file()),
            );
        if before.state().inodes.contains_key(key) {
            assert(before.state().record_ok(key, before.state().inodes[key]));
        }
    }
}

/// On a volume in order, a write to a regular file is refused only for want of room:
/// whatever the file holds, a write of some bytes for which there is room succeeds on
/// a device that carries out every request.
pub proof fn law_write_needs_room_only(
    before: VolumeModel,
    after: VolumeModel,
    inode_number: u64,
    offset: u64,
    data: Seq<u8>,
    outcome: Result<usize, BafsError>,
)
    requires
        before.in_order(),
        inode_in(before, inode_number) is Ok,
        inode_in(before, inode_number)->Ok_0.posix_mode & 0o170000 == 0o100000,
        inode_in(before, inode_number)->Ok_0.allocated_block_count + (data.len() + 4095) / 4096
            <= u64::MAX,
        data.len() > 0,
        writing::room_for_write(before, (data.len() + 4095) / 4096),
        writing::write_outcome(before, after, true, inode_number, offset, data, outcome),
    ensures
        outcome is Ok,
        outcome->Ok_0 == data.len(),
{
    assert(inode_in(before, inode_number)->Ok_0.spec_is_regular_file());
    assert(block_io::blocks_for(data.len()) == (data.len() + 4095) / 4096);
    assert(writing::write_refusal(before, inode_number, data.len()) is None);
}

/// When a write is refused, whatever room there is: for an inode that cannot be read,
/// with the error of that; for one that is no regular file; and for one whose count of
/// blocks is at its end.
pub proof fn law_write_is_refused(
    before: VolumeModel,
    after: VolumeModel,
    inode_number: u64,
    offset: u64,
    data: Seq<u8>,
    outcome: Result<usize, BafsError>,
)
    requires
        writing::write_outcome(before, after, true, inode_number, offset, data, outcome),
    ensures
        data.len() == 0 ==> outcome == Ok::<usize, BafsError>(0) && after == before,
        data.len() > 0 ==> match inode_in(before, inode_number) {
            Err(error) => outcome == Err::<usize, BafsError>(error) && after == before,
            Ok(inode) => {
                &&& inode.posix_mode & 0o170000 != 0o100000 ==> outcome == Err::<
                    usize,
                    BafsError,
                >(BafsError::NotARegularFile) && after == before
                &&& inode.posix_mode & 0o170000 == 0o100000 && inode.allocated_block_count + (
                data.len() + 4095) / 4096 > u64::MAX ==> outcome == Err::<usize, BafsError>(
                    BafsError::CorruptedStructure,
                ) && after == before
            },
        },
{
}

/// When a read is refused: for an inode that cannot be read, with the error of that,
/// and for one that is no regular file. Behind the end of a file nothing is read, and
/// that is no error.
pub proof fn law_read_is_refused(
    volume: VolumeModel,
    inode_number: u64,
    offset: u64,
    length: nat,
)
    ensures
        length == 0 ==> reading::file_read(volume, inode_number, offset, length) == Ok::<
            Seq<u8>,
            BafsError,
        >(Seq::empty()),
        length > 0 ==> match inode_in(volume, inode_number) {
            Err(error) => reading::file_read(volume, inode_number, offset, length) == Err::<
                Seq<u8>,
                BafsError,
            >(error),
            Ok(inode) => {
                &&& inode.posix_mode & 0o170000 != 0o100000 ==> reading::file_read(
                    volume,
                    inode_number,
                    offset,
                    length,
                ) == Err::<Seq<u8>, BafsError>(BafsError::NotARegularFile)
                &&& inode.posix_mode & 0o170000 == 0o100000 && offset >= inode.file_size_in_bytes
                    ==> reading::file_read(volume, inode_number, offset, length) == Ok::<
                    Seq<u8>,
                    BafsError,
                >(Seq::empty())
            },
        },
{
}

} // verus!
