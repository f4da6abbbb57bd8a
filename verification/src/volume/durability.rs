//! Steps on the way to files that outlast an unmount: how the blocks grow that a
//! commit writes, and what a volume holds once a file was created and written.

use vstd::prelude::*;
use crate::block_io;
use crate::btree::node::LeafEntry;
use crate::dir;
use crate::error::BafsError;
use crate::state;
use super::laws;
use super::model as volume_model;
use super::mounting;
use super::naming;
use super::reading;
use super::writing;
use super::{inode_in, VolumeModel};

verus! {

/// The addresses `start .. end`.
pub open spec fn addresses(start: int, end: int) -> Set<u64> {
    Set::new(|address: u64| start <= address < end)
}

proof fn lemma_addresses(start: int, end: int)
    requires
        start <= end,
    ensures
        addresses(start, end).finite(),
        addresses(start, end).len() <= end - start,
    decreases end - start,
{
    if start == end {
        assert(addresses(start, end) =~= Set::<u64>::empty());
    } else {
        lemma_addresses(start, end - 1);
        if 0 <= end - 1 <= u64::MAX {
            assert(addresses(start, end) =~= addresses(start, end - 1).insert((end - 1) as u64));
        } else {
            assert(addresses(start, end) =~= addresses(start, end - 1));
        }
    }
}

/// The cache of a volume grows by the tree nodes and the data blocks that were
/// written, and by no more.
pub proof fn law_cache_growth(before: VolumeModel, after: VolumeModel, first: int, count: nat)
    requires
        before.cache.dom().finite(),
        volume_model::worked_on(before, after, first, count),
    ensures
        after.cache.dom().finite(),
        after.cache.dom().len() <= before.cache.dom().len() + (after.next_free - before.next_free)
            + count,
{
    let nodes = addresses(before.next_free as int, after.next_free as int);
    let blocks = addresses(first, first + count);
    let all = before.cache.dom().union(nodes).union(blocks);
    lemma_addresses(before.next_free as int, after.next_free as int);
    lemma_addresses(first, first + count);
    assert forall|address: u64| after.cache.dom().contains(address) implies all.contains(
        address,
    ) by {
        assert(after.cache.contains_key(address));
    }
    vstd::set_lib::lemma_len_union(before.cache.dom(), nodes);
    vstd::set_lib::lemma_len_union(before.cache.dom().union(nodes), blocks);
    vstd::set_lib::lemma_len_subset(after.cache.dom(), all);
}

/// A volume that can be mounted again stays so while it is worked on.
pub proof fn law_work_keeps_anchor(
    before: VolumeModel,
    after: VolumeModel,
    first: int,
    count: nat,
)
    requires
        mounting::anchored(before),
        volume_model::worked_on(before, after, first, count),
    ensures
        mounting::anchored(after),
{
}

/// What a volume holds once a file was created on it.
#[verifier::spinoff_prover]
#[verifier::rlimit(40)]
pub proof fn lemma_new_file_created(
    before: VolumeModel,
    created: VolumeModel,
    reliable: bool,
    directory: u64,
    name: Seq<char>,
    number: u64,
)
    requires
        before.in_order(),
        naming::create_outcome(
            before,
            created,
            reliable,
            directory,
            name,
            naming::new_file(),
            Ok(number),
        ),
    ensures
        created.in_order(),
        inode_in(before, directory) is Ok,
        inode_in(before, directory)->Ok_0.spec_is_directory(),
        directory <= before.state().inode_count < number,
        number == created.state().inode_count,
        inode_in(created, number) is Ok,
        inode_in(created, number)->Ok_0.spec_is_regular_file(),
        inode_in(created, number)->Ok_0.allocated_block_count == 0,
        inode_in(created, number)->Ok_0.file_size_in_bytes == 0,
        state::entry_of(before.state(), directory, name) is None,
        state::entry_of(created.state(), directory, name) == Some(
            dir::new_entry(name, number, naming::new_file().child_type),
        ),
        forall|other_directory: u64, other: Seq<char>|
            other_directory != directory || other != name ==> #[trigger] state::entry_of(
                created.state(),
                other_directory,
                other,
            ) == state::entry_of(before.state(), other_directory, other),
        forall|other: u64|
            other != number ==> #[trigger] laws::same_file(before.state(), created.state(), other),
{
    assert(naming::create_refusal(before, directory, name) is None);
    writing::lemma_inode_record(before, directory);
    laws::law_created_name_is_found(
        before.state(),
        created.state(),
        reliable,
        directory,
        name,
        before.next_transaction,
        naming::new_file(),
        number,
    );
    assert((0o100644u32 & 0o170000) == 0o100000) by (bit_vector);
    writing::lemma_inode_record(created, number);
}

/// What the first write to a file stores.
#[verifier::spinoff_prover]
#[verifier::rlimit(40)]
pub proof fn lemma_first_write(
    created: VolumeModel,
    written: VolumeModel,
    reliable: bool,
    number: u64,
    data: Seq<u8>,
    outcome: Result<usize, BafsError>,
    at: u64,
    length: nat,
) -> (item: LeafEntry)
    requires
        created.in_order(),
        0 < data.len() <= u64::MAX,
        inode_in(created, number) is Ok,
        inode_in(created, number)->Ok_0.spec_is_regular_file(),
        inode_in(created, number)->Ok_0.allocated_block_count == 0,
        inode_in(created, number)->Ok_0.file_size_in_bytes == 0,
        outcome is Ok,
        writing::write_outcome(created, written, reliable, number, 0, data, outcome),
    ensures
        written.in_order(),
        written.state().inode_count == created.state().inode_count,
        writing::file_written(
            created.state(),
            written.state(),
            number,
            0,
            data,
            created.next_transaction,
            item,
        ),
        reading::file_read(written, number, at, length) == Ok::<Seq<u8>, BafsError>(
            reading::part_of(data, at, length),
        ),
{
    assert(writing::write_refusal(created, number, data.len()) is None);
    let item = choose|item: LeafEntry| #[trigger]
        writing::file_written(
            created.state(),
            written.state(),
            number,
            0,
            data,
            created.next_transaction,
            item,
        );
    laws::law_read_ends_with_file(
        created,
        written,
        number,
        data,
        created.next_transaction,
        item,
        at,
        length,
    );
    let count = block_io::blocks_for(data.len());
    let taken = state::with_blocks_taken(created.state(), item, count as u64);
    state::lemma_take_blocks(created.state(), item, count as u64);
    state::lemma_with_data(taken, item.key.offset, data, count, count);
    item
}

/// A file that was created and written to once is read back, and its name is found;
/// every other file is read as before, and every other name is found as before.
#[verifier::spinoff_prover]
#[verifier::rlimit(60)]
pub proof fn law_new_file_is_stored(
    before: VolumeModel,
    created: VolumeModel,
    written: VolumeModel,
    reliable: bool,
    directory: u64,
    name: Seq<char>,
    number: u64,
    data: Seq<u8>,
    other: u64,
    other_directory: u64,
    other_name: Seq<char>,
    at: u64,
    length: nat,
)
    requires
        before.in_order(),
        0 < data.len() <= u64::MAX,
        naming::create_outcome(
            before,
            created,
            reliable,
            directory,
            name,
            naming::new_file(),
            Ok(number),
        ),
        writing::write_outcome(created, written, reliable, number, 0, data, Ok(data.len() as usize)),
    ensures
        written.in_order(),
        number > before.state().inode_count,
        number == written.state().inode_count,
        reading::file_read(written, number, at, length) == Ok::<Seq<u8>, BafsError>(
            reading::part_of(data, at, length),
        ),
        reading::lookup_in(written, directory, name) == Ok::<Option<u64>, BafsError>(
            Some(number),
        ),
        state::entry_of(before.state(), directory, name) is None,
        other != number ==> {
            &&& inode_in(written, other) == inode_in(before, other)
            &&& reading::file_read(written, other, at, length) == reading::file_read(
                before,
                other,
                at,
                length,
            )
        },
        state::entry_of(written.state(), directory, name) == Some(
            dir::new_entry(name, number, naming::new_file().child_type),
        ),
        other_directory != directory || other_name != name ==> state::entry_of(
            written.state(),
            other_directory,
            other_name,
        ) == state::entry_of(before.state(), other_directory, other_name),
{
    lemma_new_file_created(before, created, reliable, directory, name, number);
    let item = lemma_first_write(
        created,
        written,
        reliable,
        number,
        data,
        Ok(data.len() as usize),
        at,
        length,
    );
    lemma_others_kept(
        before,
        created,
        written,
        number,
        data,
        item,
        directory,
        at,
        length,
    );
    if other != number {
        lemma_others_kept(before, created, written, number, data, item, other, at, length);
    }
    laws::law_write_keeps_names(
        created.state(),
        written.state(),
        number,
        0,
        data,
        created.next_transaction,
        item,
        directory,
        name,
    );
    laws::law_write_keeps_names(
        created.state(),
        written.state(),
        number,
        0,
        data,
        created.next_transaction,
        item,
        other_directory,
        other_name,
    );
    laws::law_lookup_finds_entries(written, directory, name);
}

proof fn lemma_others_kept(
    before: VolumeModel,
    created: VolumeModel,
    written: VolumeModel,
    number: u64,
    data: Seq<u8>,
    item: LeafEntry,
    other: u64,
    at: u64,
    length: nat,
)
    requires
        before.in_order(),
        created.in_order(),
        written.in_order(),
        other != number,
        0 < data.len() <= u64::MAX,
        laws::same_file(before.state(), created.state(), other),
        writing::file_written(
            created.state(),
            written.state(),
            number,
            0,
            data,
            created.next_transaction,
            item,
        ),
    ensures
        inode_in(written, other) == inode_in(before, other),
        reading::file_read(written, other, at, length) == reading::file_read(
            before,
            other,
            at,
            length,
        ),
{
    laws::law_write_keeps_other_files(
        created.state(),
        written.state(),
        number,
        0,
        data,
        created.next_transaction,
        item,
        other,
    );
    laws::lemma_same_inode(before, created, other);
    laws::lemma_same_inode(created, written, other);
    laws::law_same_file_reads_the_same(before, created, other, at, length);
    laws::law_same_file_reads_the_same(created, written, other, at, length);
}

} // verus!
