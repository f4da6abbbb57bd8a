//! Files that are put into a directory are kept: where they fit, they are all
//! created and written, and once the volume was unmounted and mounted again their
//! names are found and their data is read back.

use vstd::prelude::*;
use vstd::utf8;
use crate::block_io;
use crate::block_io::BlockWrite;
use crate::btree::key::{BafsKey, ITEM_TYPE_DIRECTORY_ENTRY};
use crate::btree::node::LeafEntry;
use crate::btree::tree;
use crate::bytes;
use crate::dir;
use crate::error::BafsError;
use crate::extent;
use crate::extent::BafsFreeExtent;
use crate::inode;
use crate::state;
use crate::state::VolumeState;
use crate::superblock;
use super::capacity;
use super::capacity::{Heights, Load};
use super::durability;
use super::formatting;
use super::formatting::BafsFormatOptions;
use super::laws;
use super::model as volume_model;
use super::mounting;
use super::naming;
use super::reading;
use super::writing;
use super::{inode_in, VolumeModel};

verus! {

/// A file that was put into a directory: its name and what was written to it, which
/// is nothing at first.
pub struct StoredFile {
    pub name: Seq<char>,
    pub data: Seq<u8>,
}

/// The file is there, under its name, and what was written to it is read back.
pub open spec fn holds_file(
    volume: VolumeModel,
    directory: u64,
    number: u64,
    file: StoredFile,
) -> bool {
    &&& number <= volume.state().inode_count
    &&& number != directory
    &&& state::entry_of(volume.state(), directory, file.name) == Some(
        dir::new_entry(file.name, number, naming::new_file().child_type),
    )
    &&& inode_in(volume, number) is Ok
    &&& inode_in(volume, number)->Ok_0.spec_is_regular_file()
    &&& file.data.len() == 0 ==> {
        &&& inode_in(volume, number)->Ok_0.allocated_block_count == 0
        &&& inode_in(volume, number)->Ok_0.file_size_in_bytes == 0
    }
    &&& file.data.len() > 0 ==> forall|at: u64, length: nat| #[trigger]
        reading::file_read(volume, number, at, length) == Ok::<Seq<u8>, BafsError>(
            reading::part_of(file.data, at, length),
        )
}

/// The directory holds the files that were put into it since `origin`, and besides
/// them the names that it had.
pub open spec fn holds_files(
    origin: VolumeModel,
    volume: VolumeModel,
    directory: u64,
    files: Map<u64, StoredFile>,
) -> bool {
    &&& volume.in_order()
    &&& directory <= volume.state().inode_count
    &&& inode_in(volume, directory) is Ok
    &&& inode_in(volume, directory)->Ok_0.spec_is_directory()
    &&& forall|number: u64| #[trigger]
        files.contains_key(number) ==> holds_file(volume, directory, number, files[number])
    &&& forall|name: Seq<char>|
        !is_name_of(files, name) ==> #[trigger] state::entry_of(volume.state(), directory, name)
            == state::entry_of(origin.state(), directory, name)
}

/// One of the files has the name.
pub open spec fn is_name_of(files: Map<u64, StoredFile>, name: Seq<char>) -> bool {
    exists|number: u64| #[trigger] files.contains_key(number) && files[number].name == name
}

/// A directory holds nothing new at first.
pub proof fn lemma_holds_nothing_new(volume: VolumeModel, directory: u64)
    requires
        volume.in_order(),
        inode_in(volume, directory) is Ok,
        inode_in(volume, directory)->Ok_0.spec_is_directory(),
    ensures
        holds_files(volume, volume, directory, Map::empty()),
{
    writing::lemma_inode_record(volume, directory);
}

/// A file stays where it and its name stay the same.
proof fn lemma_file_stays_held(
    before: VolumeModel,
    after: VolumeModel,
    directory: u64,
    number: u64,
    file: StoredFile,
)
    requires
        before.in_order(),
        after.in_order(),
        holds_file(before, directory, number, file),
        before.state().inode_count <= after.state().inode_count,
        laws::same_file(before.state(), after.state(), number),
        state::entry_of(after.state(), directory, file.name) == state::entry_of(
            before.state(),
            directory,
            file.name,
        ),
    ensures
        holds_file(after, directory, number, file),
{
    laws::lemma_same_inode(before, after, number);
    if file.data.len() > 0 {
        assert forall|at: u64, length: nat| #[trigger]
            reading::file_read(after, number, at, length) == Ok::<Seq<u8>, BafsError>(
                reading::part_of(file.data, at, length),
            ) by {
            laws::law_same_file_reads_the_same(before, after, number, at, length);
            assert(reading::file_read(before, number, at, length) == Ok::<Seq<u8>, BafsError>(
                reading::part_of(file.data, at, length),
            ));
        }
    }
}

/// Creating a file in a directory adds it, empty, to those that the directory holds.
#[verifier::spinoff_prover]
#[verifier::rlimit(40)]
pub proof fn law_created_file_is_held(
    origin: VolumeModel,
    volume: VolumeModel,
    created: VolumeModel,
    reliable: bool,
    directory: u64,
    files: Map<u64, StoredFile>,
    name: Seq<char>,
    number: u64,
)
    requires
        holds_files(origin, volume, directory, files),
        naming::create_outcome(
            volume,
            created,
            reliable,
            directory,
            name,
            naming::new_file(),
            Ok(number),
        ),
    ensures
        holds_files(
            origin,
            created,
            directory,
            files.insert(number, StoredFile { name, data: Seq::empty() }),
        ),
        forall|key: u64| #[trigger] files.contains_key(key) ==> key != number,
{
    let more = files.insert(number, StoredFile { name, data: Seq::empty() });
    durability::lemma_new_file_created(volume, created, reliable, directory, name, number);
    assert forall|key: u64| #[trigger] files.contains_key(key) implies key != number by {
        assert(holds_file(volume, directory, key, files[key]));
    }
    assert(laws::same_file(volume.state(), created.state(), directory));
    laws::lemma_same_inode(volume, created, directory);
    assert forall|key: u64| #[trigger] more.contains_key(key) implies holds_file(
        created,
        directory,
        key,
        more[key],
    ) by {
        if key != number {
            assert(files.contains_key(key));
            assert(holds_file(volume, directory, key, files[key]));
            assert(laws::same_file(volume.state(), created.state(), key));
            assert(files[key].name != name);
            lemma_file_stays_held(volume, created, directory, key, files[key]);
        }
    }
    assert forall|other: Seq<char>| !is_name_of(more, other) implies #[trigger] state::entry_of(
        created.state(),
        directory,
        other,
    ) == state::entry_of(origin.state(), directory, other) by {
        assert(more.contains_key(number) && more[number].name == name);
        assert(other != name);
        if is_name_of(files, other) {
            let key = choose|key: u64| #[trigger]
                files.contains_key(key) && files[key].name == other;
            assert(more.contains_key(key) && more[key].name == other);
        }
        assert(state::entry_of(volume.state(), directory, other) == state::entry_of(
            origin.state(),
            directory,
            other,
        ));
    }
}

/// The first write to a file that a directory holds gives it its data.
#[verifier::spinoff_prover]
#[verifier::rlimit(40)]
pub proof fn law_written_file_is_held(
    origin: VolumeModel,
    volume: VolumeModel,
    written: VolumeModel,
    reliable: bool,
    directory: u64,
    files: Map<u64, StoredFile>,
    number: u64,
    data: Seq<u8>,
    outcome: Result<usize, BafsError>,
)
    requires
        holds_files(origin, volume, directory, files),
        files.contains_key(number),
        files[number].data.len() == 0,
        0 < data.len() <= u64::MAX,
        outcome is Ok,
        writing::write_outcome(volume, written, reliable, number, 0, data, outcome),
    ensures
        holds_files(
            origin,
            written,
            directory,
            files.insert(number, StoredFile { data, ..files[number] }),
        ),
{
    let more = files.insert(number, StoredFile { data, ..files[number] });
    assert(holds_file(volume, directory, number, files[number]));
    assert(writing::write_refusal(volume, number, data.len()) is None);
    let item = durability::lemma_first_write(
        volume,
        written,
        reliable,
        number,
        data,
        outcome,
        0,
        0,
    );
    laws::law_write_keeps_other_files(
        volume.state(),
        written.state(),
        number,
        0,
        data,
        volume.next_transaction,
        item,
        directory,
    );
    laws::lemma_same_inode(volume, written, directory);
    assert forall|name: Seq<char>| #[trigger]
        state::entry_of(written.state(), directory, name) == state::entry_of(
            volume.state(),
            directory,
            name,
        ) by {
        laws::law_write_keeps_names(
            volume.state(),
            written.state(),
            number,
            0,
            data,
            volume.next_transaction,
            item,
            directory,
            name,
        );
    }
    assert forall|key: u64| #[trigger] more.contains_key(key) implies holds_file(
        written,
        directory,
        key,
        more[key],
    ) by {
        assert(files.contains_key(key));
        assert(holds_file(volume, directory, key, files[key]));
        if key != number {
            laws::law_write_keeps_other_files(
                volume.state(),
                written.state(),
                number,
                0,
                data,
                volume.next_transaction,
                item,
                key,
            );
            lemma_file_stays_held(volume, written, directory, key, files[key]);
        } else {
            laws::law_write_grows_file(
                volume,
                written,
                number,
                0,
                data,
                volume.next_transaction,
                item,
            );
            assert forall|at: u64, length: nat| #[trigger]
                reading::file_read(written, number, at, length) == Ok::<Seq<u8>, BafsError>(
                    reading::part_of(data, at, length),
                ) by {
                let _ = durability::lemma_first_write(
                    volume,
                    written,
                    reliable,
                    number,
                    data,
                    outcome,
                    at,
                    length,
                );
            }
        }
    }
    assert forall|name: Seq<char>| !is_name_of(more, name) implies #[trigger] state::entry_of(
        written.state(),
        directory,
        name,
    ) == state::entry_of(origin.state(), directory, name) by {
        if is_name_of(files, name) {
            let key = choose|key: u64| #[trigger]
                files.contains_key(key) && files[key].name == name;
            assert(more.contains_key(key) && more[key].name == name);
        }
        assert(state::entry_of(volume.state(), directory, name) == state::entry_of(
            origin.state(),
            directory,
            name,
        ));
    }
}

/// The files that a directory holds are found and read once the volume was
/// committed and is mounted again.
pub proof fn law_held_files_survive_remount(
    origin: VolumeModel,
    volume: VolumeModel,
    after: VolumeModel,
    reliable: bool,
    entries: Seq<BlockWrite>,
    directory: u64,
    files: Map<u64, StoredFile>,
    number: u64,
    at: u64,
    length: nat,
)
    requires
        holds_files(origin, volume, directory, files),
        mounting::anchored(volume),
        volume.next_transaction < u64::MAX - 1,
        mounting::commit_of(volume, after, reliable, entries, Ok(())),
        files.contains_key(number),
    ensures
        mounting::mount_result(after.disk) is Ok,
        ({
            let mounted = mounting::mount_result(after.disk)->Ok_0;
            &&& mounted.in_order()
            &&& reading::lookup_in(mounted, directory, files[number].name) == Ok::<
                Option<u64>,
                BafsError,
            >(Some(number))
            &&& files[number].data.len() > 0 ==> reading::file_read(mounted, number, at, length)
                == Ok::<Seq<u8>, BafsError>(reading::part_of(files[number].data, at, length))
        }),
{
    let name = files[number].name;
    assert(holds_file(volume, directory, number, files[number]));
    laws::law_lookup_finds_entries(volume, directory, name);
    laws::law_committed_contents_survive_remount(
        volume,
        after,
        reliable,
        entries,
        number,
        at,
        length,
        name,
    );
    laws::law_committed_contents_survive_remount(
        volume,
        after,
        reliable,
        entries,
        directory,
        at,
        length,
        name,
    );
    if files[number].data.len() > 0 {
        assert(reading::file_read(volume, number, at, length) == Ok::<Seq<u8>, BafsError>(
            reading::part_of(files[number].data, at, length),
        ));
    }
}

/// A call that puts something into a directory, and what it returned.
pub enum Call {
    /// A file is created.
    Create { name: Seq<char>, result: Result<u64, BafsError> },
    /// A file is written from its start on; its data blocks are among those from
    /// `first` on.
    Write { number: u64, data: Seq<u8>, first: int, result: Result<usize, BafsError> },
}

impl Call {
    /// What the call made of the volume, on a device that carries out every request.
    #[verifier::opaque]
    pub open spec fn made(self, before: VolumeModel, after: VolumeModel, directory: u64) -> bool {
        match self {
            Call::Create { name, result } => {
                &&& volume_model::worked_on(before, after, 0, 0)
                &&& naming::create_outcome(
                    before,
                    after,
                    true,
                    directory,
                    name,
                    naming::new_file(),
                    result,
                )
            },
            Call::Write { number, data, first, result } => {
                &&& volume_model::worked_on(
                    before,
                    after,
                    first,
                    block_io::blocks_for(data.len()),
                )
                &&& writing::write_outcome(before, after, true, number, 0, data, result)
            },
        }
    }

    /// The call succeeded, where `next` is the number of the next file.
    pub open spec fn succeeded(self, next: u64) -> bool {
        match self {
            Call::Create { name, result } => result == Ok::<u64, BafsError>(next),
            Call::Write { number, data, first, result } => result is Ok && result->Ok_0
                == data.len(),
        }
    }

    /// The load with the call.
    pub open spec fn added_to(self, load: Load) -> Load {
        match self {
            Call::Create { name, result } => load.and_creation(),
            Call::Write { number, data, first, result } => load.and_write(
                block_io::blocks_for(data.len()),
            ),
        }
    }

    /// The files that a directory holds after the call, where `next` is the number of
    /// the next file.
    pub open spec fn files_after(self, files: Map<u64, StoredFile>, next: u64) -> Map<
        u64,
        StoredFile,
    > {
        match self {
            Call::Create { name, result } => files.insert(
                next,
                StoredFile { name, data: Seq::empty() },
            ),
            Call::Write { number, data, first, result } => files.insert(
                number,
                StoredFile { data, ..files[number] },
            ),
        }
    }

    /// The call makes sense: a name is new and neither empty nor too long; a file
    /// that is written was created and is still empty, and it is given some data.
    pub open spec fn sensible(
        self,
        origin: VolumeModel,
        directory: u64,
        files: Map<u64, StoredFile>,
    ) -> bool {
        match self {
            Call::Create { name, result } => {
                &&& 0 < utf8::encode_utf8(name).len() <= 255
                &&& !is_name_of(files, name)
                &&& state::entry_of(origin.state(), directory, name) is None
            },
            Call::Write { number, data, first, result } => {
                &&& files.contains_key(number)
                &&& files[number].data.len() == 0
                &&& 0 < data.len() <= u64::MAX
            },
        }
    }
}

/// What some calls put on a volume.
pub open spec fn load_of(calls: Seq<Call>) -> Load
    decreases calls.len(),
{
    if calls.len() == 0 {
        capacity::no_load()
    } else {
        calls.last().added_to(load_of(calls.drop_last()))
    }
}

/// The files that some calls put into a directory, where `inode_count` numbers were
/// in use before.
pub open spec fn files_of(inode_count: u64, calls: Seq<Call>) -> Map<u64, StoredFile>
    decreases calls.len(),
{
    if calls.len() == 0 {
        Map::empty()
    } else {
        let earlier = calls.drop_last();
        calls.last().files_after(
            files_of(inode_count, earlier),
            (inode_count + load_of(earlier).creations + 1) as u64,
        )
    }
}

/// Every one of the calls succeeded.
pub open spec fn all_succeeded(inode_count: u64, calls: Seq<Call>) -> bool
    decreases calls.len(),
{
    calls.len() > 0 ==> {
        let earlier = calls.drop_last();
        &&& all_succeeded(inode_count, earlier)
        &&& calls.last().succeeded((inode_count + load_of(earlier).creations + 1) as u64)
    }
}

/// Every one of the calls makes sense after those before it.
pub open spec fn sensible_calls(origin: VolumeModel, directory: u64, calls: Seq<Call>) -> bool
    decreases calls.len(),
{
    calls.len() > 0 ==> {
        let earlier = calls.drop_last();
        &&& sensible_calls(origin, directory, earlier)
        &&& calls.last().sensible(
            origin,
            directory,
            files_of(origin.state().inode_count, earlier),
        )
    }
}

/// How large the record of a directory's names under `key` is after some calls.
pub open spec fn record_size(
    contents: VolumeState,
    directory: u64,
    calls: Seq<Call>,
    key: BafsKey,
) -> nat
    decreases calls.len(),
{
    if calls.len() == 0 {
        if contents.inodes.contains_key(key) {
            contents.inodes[key].len()
        } else {
            0
        }
    } else {
        record_size(contents, directory, calls.drop_last(), key) + match calls.last() {
            Call::Create { name, result } => if dir::entry_key(directory, name) == key {
                12 + utf8::encode_utf8(name).len()
            } else {
                0
            },
            Call::Write { number, data, first, result } => 0,
        }
    }
}

/// No record of the directory's names gets large by the calls. Names share a record
/// only where their hashes are the same.
pub open spec fn names_fit(contents: VolumeState, directory: u64, calls: Seq<Call>) -> bool {
    forall|key: BafsKey|
        key.object_id == directory && key.item_type == ITEM_TYPE_DIRECTORY_ENTRY
            ==> #[trigger] record_size(contents, directory, calls, key)
            <= tree::small_value_size()
}

/// The records of the directory's names are no larger than the calls made them.
pub open spec fn names_within(
    origin: VolumeModel,
    volume: VolumeModel,
    directory: u64,
    calls: Seq<Call>,
) -> bool {
    forall|key: BafsKey| #[trigger]
        volume.state().inodes.contains_key(key) && key.object_id == directory && key.item_type
            == ITEM_TYPE_DIRECTORY_ENTRY ==> volume.state().inodes[key].len() <= record_size(
            origin.state(),
            directory,
            calls,
            key,
        )
}

/// What is known after some of the calls: what they put on the volume is there, and
/// the directory holds the files.
pub open spec fn on_the_way(
    origin: VolumeModel,
    volume: VolumeModel,
    directory: u64,
    load: Load,
    calls: Seq<Call>,
) -> bool {
    &&& capacity::carries(origin, volume, load, load_of(calls))
    &&& holds_files(origin, volume, directory, files_of(origin.state().inode_count, calls))
    &&& names_within(origin, volume, directory, calls)
}

/// How large the record is that takes the next name.
proof fn lemma_name_size(
    origin: VolumeModel,
    volume: VolumeModel,
    directory: u64,
    calls: Seq<Call>,
    name: Seq<char>,
    result: Result<u64, BafsError>,
)
    requires
        names_within(origin, volume, directory, calls),
    ensures
        naming::record_with_child(volume.state(), directory, name, naming::new_file()).len()
            <= record_size(
            origin.state(),
            directory,
            calls.push(Call::Create { name, result }),
            dir::entry_key(directory, name),
        ),
{
    let contents = volume.state();
    let key = dir::entry_key(directory, name);
    let call = Call::Create { name, result };
    assert(calls.push(call).drop_last() =~= calls);
    bytes::lemma_le_bytes_len(
        naming::child_entry(contents, name, naming::new_file()).child_inode_number as nat,
        8,
    );
    if contents.inodes.contains_key(key) {
        assert(contents.inodes[key].len() <= record_size(origin.state(), directory, calls, key));
    }
}

/// How large the records of names are once a file was created.
proof fn lemma_created_name_size(
    origin: VolumeModel,
    volume: VolumeModel,
    created: VolumeModel,
    directory: u64,
    calls: Seq<Call>,
    name: Seq<char>,
    number: u64,
)
    requires
        volume.in_order(),
        names_within(origin, volume, directory, calls),
        naming::create_outcome(
            volume,
            created,
            true,
            directory,
            name,
            naming::new_file(),
            Ok(number),
        ),
    ensures
        names_within(
            origin,
            created,
            directory,
            calls.push(Call::Create { name, result: Ok(number) }),
        ),
{
    let call = Call::Create { name, result: Ok(number) };
    assert(calls.push(call).drop_last() =~= calls);
    lemma_name_size(origin, volume, directory, calls, name, Ok(number));
    assert(naming::create_refusal(volume, directory, name) is None);
    let entry_key = dir::entry_key(directory, name);
    let middle = choose|middle: VolumeState| #[trigger]
        naming::inode_added(
            volume.state(),
            middle,
            volume.next_transaction,
            naming::new_file(),
        ) && created.state() == state::with_record(
            middle,
            entry_key,
            naming::record_with_child(volume.state(), directory, name, naming::new_file()),
        );
    assert forall|key: BafsKey| #[trigger]
        created.state().inodes.contains_key(key) && key.object_id == directory && key.item_type
            == ITEM_TYPE_DIRECTORY_ENTRY implies created.state().inodes[key].len()
        <= record_size(origin.state(), directory, calls.push(call), key) by {
        if key != entry_key {
            assert(key != inode::inode_key(number));
            assert(volume.state().inodes.contains_key(key));
        }
    }
}

/// The records of names stay as they are where a file is written.
proof fn lemma_written_name_size(
    origin: VolumeModel,
    volume: VolumeModel,
    written: VolumeModel,
    directory: u64,
    calls: Seq<Call>,
    call: Call,
    number: u64,
    data: Seq<u8>,
    item: LeafEntry,
)
    requires
        volume.in_order(),
        0 < data.len() <= u64::MAX,
        call is Write,
        names_within(origin, volume, directory, calls),
        writing::file_written(
            volume.state(),
            written.state(),
            number,
            0,
            data,
            volume.next_transaction,
            item,
        ),
    ensures
        names_within(origin, written, directory, calls.push(call)),
{
    assert(calls.push(call).drop_last() =~= calls);
    let count = block_io::blocks_for(data.len());
    let taken = state::with_blocks_taken(volume.state(), item, count as u64);
    state::lemma_take_blocks(volume.state(), item, count as u64);
    state::lemma_with_data(taken, item.key.offset, data, count, count);
    assert forall|key: BafsKey| #[trigger]
        written.state().inodes.contains_key(key) && key.object_id == directory && key.item_type
            == ITEM_TYPE_DIRECTORY_ENTRY implies written.state().inodes[key].len() <= record_size(
        origin.state(),
        directory,
        calls.push(call),
        key,
    ) by {
        assert(key != inode::inode_key(number));
        assert(key != extent::extent_key(number, 0));
        assert(volume.state().inodes.contains_key(key));
    }
}

/// A sensible call that belongs to a load which fits succeeds, and does what it is
/// meant to.
#[verifier::spinoff_prover]
#[verifier::rlimit(40)]
pub proof fn law_call_succeeds(
    origin: VolumeModel,
    before: VolumeModel,
    after: VolumeModel,
    directory: u64,
    load: Load,
    calls: Seq<Call>,
    call: Call,
)
    requires
        capacity::fits(origin, load),
        on_the_way(origin, before, directory, load, calls),
        load_of(calls.push(call)).within(load),
        names_fit(origin.state(), directory, calls.push(call)),
        call.sensible(origin, directory, files_of(origin.state().inode_count, calls)),
        call.made(before, after, directory),
    ensures
        call.succeeded((before.state().inode_count + 1) as u64),
        on_the_way(origin, after, directory, load, calls.push(call)),
{
    let part = load_of(calls);
    let files = files_of(origin.state().inode_count, calls);
    assert(calls.push(call).drop_last() =~= calls);
    assert(load_of(calls.push(call)) == call.added_to(part));
    reveal(Call::made);
    match call {
        Call::Create { name, result } => {
            assert(state::entry_of(before.state(), directory, name) is None);
            lemma_name_size(origin, before, directory, calls, name, result);
            capacity::law_creation_succeeds(
                origin,
                load,
                part,
                before,
                after,
                directory,
                name,
                naming::new_file(),
                result,
            );
            law_created_file_is_held(
                origin,
                before,
                after,
                true,
                directory,
                files,
                name,
                result->Ok_0,
            );
            lemma_created_name_size(
                origin,
                before,
                after,
                directory,
                calls,
                name,
                result->Ok_0,
            );
        },
        Call::Write { number, data, first, result } => {
            assert(holds_file(before, directory, number, files[number]));
            capacity::law_write_succeeds(
                origin,
                load,
                part,
                before,
                after,
                first,
                number,
                0,
                data,
                result,
            );
            law_written_file_is_held(
                origin,
                before,
                after,
                true,
                directory,
                files,
                number,
                data,
                result,
            );
            let item = choose|item: LeafEntry| #[trigger]
                writing::file_written(
                    before.state(),
                    after.state(),
                    number,
                    0,
                    data,
                    before.next_transaction,
                    item,
                );
            lemma_written_name_size(
                origin,
                before,
                after,
                directory,
                calls,
                call,
                number,
                data,
                item,
            );
        },
    }
}

/// The calls were made one after the other, each on the volume that the one before
/// left.
pub open spec fn calls_made(volumes: Seq<VolumeModel>, directory: u64, calls: Seq<Call>) -> bool {
    &&& volumes.len() == calls.len() + 1
    &&& forall|i: int|
        0 <= i < calls.len() ==> (#[trigger] calls[i]).made(
            volumes[i],
            volumes[i + 1],
            directory,
        )
}

/// Earlier calls make smaller records.
proof fn lemma_names_fit(contents: VolumeState, directory: u64, calls: Seq<Call>)
    requires
        names_fit(contents, directory, calls),
        calls.len() > 0,
    ensures
        names_fit(contents, directory, calls.drop_last()),
{
    assert forall|key: BafsKey|
        key.object_id == directory && key.item_type
            == ITEM_TYPE_DIRECTORY_ENTRY implies #[trigger] record_size(
        contents,
        directory,
        calls.drop_last(),
        key,
    ) <= tree::small_value_size() by {
        assert(record_size(contents, directory, calls, key) <= tree::small_value_size());
    }
}

/// Whatever files are put into a directory, and in whatever order the calls come:
/// where the load fits, every call succeeds, and the directory holds the files.
pub proof fn law_calls_succeed(
    origin: VolumeModel,
    directory: u64,
    load: Load,
    calls: Seq<Call>,
    volumes: Seq<VolumeModel>,
)
    requires
        capacity::fits(origin, load),
        inode_in(origin, directory) is Ok,
        inode_in(origin, directory)->Ok_0.spec_is_directory(),
        load_of(calls).within(load),
        names_fit(origin.state(), directory, calls),
        sensible_calls(origin, directory, calls),
        calls_made(volumes, directory, calls),
        volumes[0] == origin,
    ensures
        all_succeeded(origin.state().inode_count, calls),
        on_the_way(origin, volumes.last(), directory, load, calls),
    decreases calls.len(),
{
    if calls.len() == 0 {
        capacity::lemma_carries_nothing(origin, load);
        lemma_holds_nothing_new(origin, directory);
        assert(volumes.last() == origin);
    } else {
        let earlier = calls.drop_last();
        let call = calls.last();
        let last = calls.len() - 1;
        assert(earlier.push(call) =~= calls);
        lemma_names_fit(origin.state(), directory, calls);
        assert(calls_made(volumes.drop_last(), directory, earlier)) by {
            assert forall|i: int| 0 <= i < earlier.len() implies (#[trigger] earlier[i]).made(
                volumes.drop_last()[i],
                volumes.drop_last()[i + 1],
                directory,
            ) by {
                assert(calls[i].made(volumes[i], volumes[i + 1], directory));
            }
        }
        law_calls_succeed(origin, directory, load, earlier, volumes.drop_last());
        assert(calls[last].made(volumes[last], volumes[last + 1], directory));
        law_call_succeeds(
            origin,
            volumes[last],
            volumes[last + 1],
            directory,
            load,
            earlier,
            call,
        );
    }
}

/// Whatever files are put into a directory, and in whatever order the calls come:
/// where the load fits on the volume and into its journal, every call and the commit
/// succeed, and once the volume is mounted again every name is found and what was
/// written is read back.
pub proof fn law_volume_keeps_files(
    origin: VolumeModel,
    directory: u64,
    load: Load,
    calls: Seq<Call>,
    volumes: Seq<VolumeModel>,
    after: VolumeModel,
    entries: Seq<BlockWrite>,
    result: Result<(), BafsError>,
    number: u64,
    at: u64,
    length: nat,
)
    requires
        capacity::fits(origin, load),
        capacity::fits_one_commit(origin, load),
        mounting::anchored(origin),
        origin.next_transaction < u64::MAX - 1,
        inode_in(origin, directory) is Ok,
        inode_in(origin, directory)->Ok_0.spec_is_directory(),
        load_of(calls).within(load),
        names_fit(origin.state(), directory, calls),
        sensible_calls(origin, directory, calls),
        calls_made(volumes, directory, calls),
        volumes[0] == origin,
        mounting::commit_of(volumes.last(), after, true, entries, result),
        files_of(origin.state().inode_count, calls).contains_key(number),
    ensures
        all_succeeded(origin.state().inode_count, calls),
        result is Ok,
        mounting::mount_result(after.disk) is Ok,
        ({
            let mounted = mounting::mount_result(after.disk)->Ok_0;
            let file = files_of(origin.state().inode_count, calls)[number];
            &&& mounted.in_order()
            &&& reading::lookup_in(mounted, directory, file.name) == Ok::<
                Option<u64>,
                BafsError,
            >(Some(number))
            &&& file.data.len() > 0 ==> reading::file_read(mounted, number, at, length) == Ok::<
                Seq<u8>,
                BafsError,
            >(reading::part_of(file.data, at, length))
        }),
{
    let volume = volumes.last();
    law_calls_succeed(origin, directory, load, calls, volumes);
    capacity::law_commit_succeeds(
        origin,
        load,
        load_of(calls),
        volume,
        after,
        entries,
        result,
    );
    law_held_files_survive_remount(
        origin,
        volume,
        after,
        true,
        entries,
        directory,
        files_of(origin.state().inode_count, calls),
        number,
        at,
        length,
    );
}

/// The trees of a new volume are no higher.
pub open spec fn new_heights() -> Heights {
    Heights { inodes: 1, free_extents: 1, checksums: 0 }
}

/// The load fits on a new volume of `total` blocks.
pub open spec fn fits_new_volume(total: u64, load: Load) -> bool {
    let heights = new_heights().under(load);
    &&& heights.allowed()
    &&& superblock::data_area_start(total) + 9 + heights.cost(load) <= state::node_area_end(total)
    &&& load.creations + 1 < u64::MAX
    &&& load.blocks <= total - state::node_area_end(total)
}

/// The blocks of the load, with the tree nodes that it takes, fit into the journal of
/// a new volume of `total` blocks.
pub open spec fn fits_new_journal(total: u64, load: Load) -> bool {
    24 + 4104 * (new_heights().under(load).cost(load) + load.blocks + 1) + 4
        <= superblock::journal_size(total) * 4096
}

/// Lower trees cost less.
proof fn lemma_lower_is_cheaper(low: Heights, high: Heights, load: Load)
    requires
        low.inodes <= high.inodes,
        low.free_extents <= high.free_extents,
        low.checksums <= high.checksums,
    ensures
        low.cost(load) <= high.cost(load),
{
    let calls = load.creations + load.writes;
    assert(calls * (4 * low.inodes + 8) <= calls * (4 * high.inodes + 8)) by (nonlinear_arith)
        requires
            low.inodes <= high.inodes,
    ;
    assert(load.writes * (3 * low.free_extents + 4) <= load.writes * (3 * high.free_extents + 4))
        by (nonlinear_arith)
        requires
            low.free_extents <= high.free_extents,
    ;
    assert(load.blocks * (2 * low.checksums + 3) <= load.blocks * (2 * high.checksums + 3))
        by (nonlinear_arith)
        requires
            low.checksums <= high.checksums,
    ;
}

/// What fits on a new volume.
proof fn lemma_new_volume_fits(
    disk: Seq<u8>,
    total_block_count: u64,
    options: BafsFormatOptions,
    load: Load,
)
    requires
        formatting::formatted(disk, total_block_count, options),
        fits_new_volume(total_block_count, load),
    ensures
        capacity::fits(mounting::mount_result(disk)->Ok_0, load),
        fits_new_journal(total_block_count, load) ==> capacity::fits_one_commit(
            mounting::mount_result(disk)->Ok_0,
            load,
        ),
        mounting::mount_result(disk)->Ok_0.state().inode_count == 1,
        mounting::mount_result(disk)->Ok_0.next_transaction < u64::MAX - 1,
{
    laws::law_formatted_device_mounts(disk, total_block_count, options);
    let volume = mounting::mount_result(disk)->Ok_0;
    lemma_lower_is_cheaper(
        capacity::heights_of(volume).under(load),
        new_heights().under(load),
        load,
    );
    assert(volume.cache.dom() =~= Set::<u64>::empty());
    assert(superblock::journal_size(total_block_count) <= 16_384);
    if load.blocks > 0 {
        let first = state::node_area_end(total_block_count) as u64;
        let extent = BafsFreeExtent {
            block_address: first,
            block_count: (total_block_count - first) as u64,
        };
        extent::law_free_extent_round_trip(extent);
        assert(volume.state().free.contains_key(extent::free_key(first)));
        assert(state::has_free_run(volume.state().free, load.blocks as u64));
    }
}

/// A new volume keeps files: on a device that carries out every request, whatever
/// files are created in the root directory and written, and in whatever order the
/// calls come, all calls and the unmounting succeed where the files fit, and once the
/// device is mounted again every name is found and what was written is read back.
pub proof fn law_new_volume_keeps_files(
    disk: Seq<u8>,
    total_block_count: u64,
    options: BafsFormatOptions,
    calls: Seq<Call>,
    volumes: Seq<VolumeModel>,
    after: VolumeModel,
    entries: Seq<BlockWrite>,
    unmounting: Result<(), BafsError>,
    number: u64,
    at: u64,
    length: nat,
)
    requires
        formatting::formatted(disk, total_block_count, options),
        fits_new_volume(total_block_count, load_of(calls)),
        fits_new_journal(total_block_count, load_of(calls)),
        names_fit(mounting::mount_result(disk)->Ok_0.state(), 1, calls),
        sensible_calls(mounting::mount_result(disk)->Ok_0, 1, calls),
        calls_made(volumes, 1, calls),
        volumes[0] == mounting::mount_result(disk)->Ok_0,
        mounting::commit_of(volumes.last(), after, true, entries, unmounting),
        files_of(1, calls).contains_key(number),
    ensures
        all_succeeded(1, calls),
        unmounting is Ok,
        mounting::mount_result(after.disk) is Ok,
        ({
            let mounted = mounting::mount_result(after.disk)->Ok_0;
            let file = files_of(1, calls)[number];
            &&& mounted.in_order()
            &&& reading::lookup_in(mounted, 1, file.name) == Ok::<Option<u64>, BafsError>(
                Some(number),
            )
            &&& file.data.len() > 0 ==> reading::file_read(mounted, number, at, length) == Ok::<
                Seq<u8>,
                BafsError,
            >(reading::part_of(file.data, at, length))
        }),
{
    let volume = mounting::mount_result(disk)->Ok_0;
    let load = load_of(calls);
    laws::law_formatted_device_mounts(disk, total_block_count, options);
    lemma_new_volume_fits(disk, total_block_count, options, load);
    law_volume_keeps_files(
        volume,
        1,
        load,
        calls,
        volumes,
        after,
        entries,
        unmounting,
        number,
        at,
        length,
    );
}

/// A file is created and then written; it is the one with the number `number`.
pub open spec fn file_put(
    file: StoredFile,
    number: u64,
    first: int,
    creation: Result<u64, BafsError>,
    outcome: Result<usize, BafsError>,
) -> Seq<Call> {
    seq![
        Call::Create { name: file.name, result: creation },
        Call::Write { number, data: file.data, first, result: outcome },
    ]
}

/// A new volume keeps a file: on a device that carries out every request, creating
/// it, writing its data and unmounting the volume succeed where the file fits, and
/// once the device is mounted again the name is found and the data is read back.
#[verifier::spinoff_prover]
#[verifier::rlimit(40)]
pub proof fn law_new_volume_keeps_a_file(
    disk: Seq<u8>,
    total_block_count: u64,
    options: BafsFormatOptions,
    file: StoredFile,
    creation: Result<u64, BafsError>,
    first: int,
    outcome: Result<usize, BafsError>,
    volumes: Seq<VolumeModel>,
    after: VolumeModel,
    entries: Seq<BlockWrite>,
    unmounting: Result<(), BafsError>,
    at: u64,
    length: nat,
)
    requires
        formatting::formatted(disk, total_block_count, options),
        0 < utf8::encode_utf8(file.name).len() <= 255,
        0 < file.data.len() <= u64::MAX,
        ({
            let load = Load {
                creations: 1,
                writes: 1,
                blocks: block_io::blocks_for(file.data.len()),
            };
            &&& fits_new_volume(total_block_count, load)
            &&& fits_new_journal(total_block_count, load)
        }),
        volumes[0] == mounting::mount_result(disk)->Ok_0,
        calls_made(volumes, 1, file_put(file, 2, first, creation, outcome)),
        mounting::commit_of(volumes.last(), after, true, entries, unmounting),
    ensures
        creation == Ok::<u64, BafsError>(2),
        outcome is Ok,
        outcome->Ok_0 == file.data.len(),
        unmounting is Ok,
        mounting::mount_result(after.disk) is Ok,
        ({
            let mounted = mounting::mount_result(after.disk)->Ok_0;
            &&& mounted.in_order()
            &&& reading::lookup_in(mounted, 1, file.name) == Ok::<Option<u64>, BafsError>(Some(2))
            &&& reading::file_read(mounted, 2, at, length) == Ok::<Seq<u8>, BafsError>(
                reading::part_of(file.data, at, length),
            )
        }),
{
    let calls = file_put(file, 2, first, creation, outcome);
    lemma_file_put(disk, total_block_count, options, file, first, creation, outcome);
    law_new_volume_keeps_files(
        disk,
        total_block_count,
        options,
        calls,
        volumes,
        after,
        entries,
        unmounting,
        2,
        at,
        length,
    );
    let none = Seq::<Call>::empty();
    assert(calls =~= none.push(calls[0]).push(calls[1]));
    lemma_one_more_success(1, none.push(calls[0]), calls[1]);
    lemma_one_more_success(1, none, calls[0]);
}

/// What the results are where one more call succeeded.
proof fn lemma_one_more_success(inode_count: u64, calls: Seq<Call>, call: Call)
    requires
        all_succeeded(inode_count, calls.push(call)),
    ensures
        all_succeeded(inode_count, calls),
        call.succeeded((inode_count + load_of(calls).creations + 1) as u64),
        load_of(calls.push(call)) == call.added_to(load_of(calls)),
{
    assert(calls.push(call).drop_last() =~= calls);
}

/// One more call.
proof fn lemma_one_more_call(
    origin: VolumeModel,
    directory: u64,
    calls: Seq<Call>,
    call: Call,
)
    requires
        sensible_calls(origin, directory, calls),
        call.sensible(origin, directory, files_of(origin.state().inode_count, calls)),
    ensures
        sensible_calls(origin, directory, calls.push(call)),
        load_of(calls.push(call)) == call.added_to(load_of(calls)),
        files_of(origin.state().inode_count, calls.push(call)) == call.files_after(
            files_of(origin.state().inode_count, calls),
            (origin.state().inode_count + load_of(calls).creations + 1) as u64,
        ),
{
    assert(calls.push(call).drop_last() =~= calls);
}

/// What it comes to that a file is put on a new volume.
proof fn lemma_file_put(
    disk: Seq<u8>,
    total_block_count: u64,
    options: BafsFormatOptions,
    file: StoredFile,
    first: int,
    creation: Result<u64, BafsError>,
    outcome: Result<usize, BafsError>,
)
    requires
        formatting::formatted(disk, total_block_count, options),
        0 < utf8::encode_utf8(file.name).len() <= 255,
        0 < file.data.len() <= u64::MAX,
    ensures
        ({
            let volume = mounting::mount_result(disk)->Ok_0;
            let calls = file_put(file, 2, first, creation, outcome);
            &&& names_fit(volume.state(), 1, calls)
            &&& sensible_calls(volume, 1, calls)
            &&& load_of(calls) == Load {
                creations: 1,
                writes: 1,
                blocks: block_io::blocks_for(file.data.len()),
            }
            &&& files_of(1, calls).contains_key(2)
            &&& files_of(1, calls)[2] == file
            &&& volume.state().inode_count == 1
        }),
{
    let volume = mounting::mount_result(disk)->Ok_0;
    let calls = file_put(file, 2, first, creation, outcome);
    let none = Seq::<Call>::empty();
    laws::law_formatted_device_mounts(disk, total_block_count, options);
    assert(files_of(1, none) == Map::<u64, StoredFile>::empty());
    assert(sensible_calls(volume, 1, none));
    lemma_one_more_call(volume, 1, none, calls[0]);
    lemma_one_more_call(volume, 1, none.push(calls[0]), calls[1]);
    assert(calls =~= none.push(calls[0]).push(calls[1]));
    lemma_names_of_new_volume(volume, calls);
}

/// Few names fit into a new volume, whatever their hashes are.
proof fn lemma_names_of_new_volume(volume: VolumeModel, calls: Seq<Call>)
    requires
        formatting::is_new_volume(volume.state()),
        calls.len() <= 7,
        forall|i: int| 0 <= i < calls.len() ==> has_short_name(#[trigger] calls[i]),
    ensures
        names_fit(volume.state(), 1, calls),
{
    assert forall|key: BafsKey|
        key.object_id == 1 && key.item_type
            == ITEM_TYPE_DIRECTORY_ENTRY implies #[trigger] record_size(
        volume.state(),
        1,
        calls,
        key,
    ) <= tree::small_value_size() by {
        lemma_record_size(volume, calls, key);
    }
}

/// The name of a file that is created is not too long.
spec fn has_short_name(call: Call) -> bool {
    call matches Call::Create { name, result } ==> utf8::encode_utf8(name).len() <= 255
}

proof fn lemma_record_size(volume: VolumeModel, calls: Seq<Call>, key: BafsKey)
    requires
        formatting::is_new_volume(volume.state()),
        key.item_type == ITEM_TYPE_DIRECTORY_ENTRY,
        forall|i: int| 0 <= i < calls.len() ==> has_short_name(#[trigger] calls[i]),
    ensures
        record_size(volume.state(), 1, calls, key) <= 267 * calls.len(),
    decreases calls.len(),
{
    if calls.len() > 0 {
        assert(has_short_name(calls[calls.len() - 1]));
        assert forall|i: int| 0 <= i < calls.drop_last().len() implies has_short_name(
            #[trigger] calls.drop_last()[i],
        ) by {
            assert(has_short_name(calls[i]));
        }
        lemma_record_size(volume, calls.drop_last(), key);
    }
}

/// Two files are created and written: one after the other, or both are created
/// before they are written.
pub open spec fn two_files_put(
    files: (StoredFile, StoredFile),
    one_by_one: bool,
    creations: (Result<u64, BafsError>, Result<u64, BafsError>),
    firsts: (int, int),
    outcomes: (Result<usize, BafsError>, Result<usize, BafsError>),
) -> Seq<Call> {
    let create_first = Call::Create { name: files.0.name, result: creations.0 };
    let create_second = Call::Create { name: files.1.name, result: creations.1 };
    let write_first = Call::Write {
        number: 2,
        data: files.0.data,
        first: firsts.0,
        result: outcomes.0,
    };
    let write_second = Call::Write {
        number: 3,
        data: files.1.data,
        first: firsts.1,
        result: outcomes.1,
    };
    if one_by_one {
        seq![create_first, write_first, create_second, write_second]
    } else {
        seq![create_first, create_second, write_first, write_second]
    }
}

/// What it comes to that two files are put on a new volume.
#[verifier::spinoff_prover]
#[verifier::rlimit(40)]
proof fn lemma_two_files_put(
    disk: Seq<u8>,
    total_block_count: u64,
    options: BafsFormatOptions,
    files: (StoredFile, StoredFile),
    one_by_one: bool,
    creations: (Result<u64, BafsError>, Result<u64, BafsError>),
    firsts: (int, int),
    outcomes: (Result<usize, BafsError>, Result<usize, BafsError>),
)
    requires
        formatting::formatted(disk, total_block_count, options),
        0 < utf8::encode_utf8(files.0.name).len() <= 255,
        0 < utf8::encode_utf8(files.1.name).len() <= 255,
        files.0.name != files.1.name,
        0 < files.0.data.len() <= u64::MAX,
        0 < files.1.data.len() <= u64::MAX,
    ensures
        ({
            let volume = mounting::mount_result(disk)->Ok_0;
            let calls = two_files_put(files, one_by_one, creations, firsts, outcomes);
            &&& names_fit(volume.state(), 1, calls)
            &&& sensible_calls(volume, 1, calls)
            &&& load_of(calls) == two_files_load(files)
            &&& files_of(1, calls).contains_key(2)
            &&& files_of(1, calls)[2] == files.0
            &&& files_of(1, calls).contains_key(3)
            &&& files_of(1, calls)[3] == files.1
            &&& volume.state().inode_count == 1
        }),
{
    let volume = mounting::mount_result(disk)->Ok_0;
    let calls = two_files_put(files, one_by_one, creations, firsts, outcomes);
    let none = Seq::<Call>::empty();
    let one = none.push(calls[0]);
    let two = one.push(calls[1]);
    let three = two.push(calls[2]);
    laws::law_formatted_device_mounts(disk, total_block_count, options);
    assert(files_of(1, none) == Map::<u64, StoredFile>::empty());
    assert(sensible_calls(volume, 1, none));
    lemma_one_more_call(volume, 1, none, calls[0]);
    assert(files_of(1, one).contains_key(2));
    lemma_one_more_call(volume, 1, one, calls[1]);
    lemma_one_more_call(volume, 1, two, calls[2]);
    assert(files_of(1, three).contains_key(3));
    lemma_one_more_call(volume, 1, three, calls[3]);
    assert(calls =~= three.push(calls[3]));
    lemma_names_of_new_volume(volume, calls);
}

/// What two files put on a volume.
pub open spec fn two_files_load(files: (StoredFile, StoredFile)) -> Load {
    Load {
        creations: 2,
        writes: 2,
        blocks: block_io::blocks_for(files.0.data.len()) + block_io::blocks_for(
            files.1.data.len(),
        ),
    }
}

/// A new volume keeps two files: on a device that carries out every request, both
/// are created and written, one after the other or both created before they are
/// written, and the volume is unmounted, all with success where the files fit; and
/// once the device is mounted again both names are found and both files are read
/// back.
#[verifier::spinoff_prover]
#[verifier::rlimit(60)]
pub proof fn law_new_volume_keeps_two_files(
    disk: Seq<u8>,
    total_block_count: u64,
    options: BafsFormatOptions,
    files: (StoredFile, StoredFile),
    one_by_one: bool,
    creations: (Result<u64, BafsError>, Result<u64, BafsError>),
    firsts: (int, int),
    outcomes: (Result<usize, BafsError>, Result<usize, BafsError>),
    volumes: Seq<VolumeModel>,
    after: VolumeModel,
    entries: Seq<BlockWrite>,
    unmounting: Result<(), BafsError>,
    at: u64,
    length: nat,
)
    requires
        formatting::formatted(disk, total_block_count, options),
        0 < utf8::encode_utf8(files.0.name).len() <= 255,
        0 < utf8::encode_utf8(files.1.name).len() <= 255,
        files.0.name != files.1.name,
        0 < files.0.data.len() <= u64::MAX,
        0 < files.1.data.len() <= u64::MAX,
        fits_new_volume(total_block_count, two_files_load(files)),
        fits_new_journal(total_block_count, two_files_load(files)),
        volumes[0] == mounting::mount_result(disk)->Ok_0,
        calls_made(
            volumes,
            1,
            two_files_put(files, one_by_one, creations, firsts, outcomes),
        ),
        mounting::commit_of(volumes.last(), after, true, entries, unmounting),
    ensures
        creations.0 == Ok::<u64, BafsError>(2),
        creations.1 == Ok::<u64, BafsError>(3),
        outcomes.0 is Ok,
        outcomes.0->Ok_0 == files.0.data.len(),
        outcomes.1 is Ok,
        outcomes.1->Ok_0 == files.1.data.len(),
        unmounting is Ok,
        mounting::mount_result(after.disk) is Ok,
        ({
            let mounted = mounting::mount_result(after.disk)->Ok_0;
            &&& mounted.in_order()
            &&& reading::lookup_in(mounted, 1, files.0.name) == Ok::<Option<u64>, BafsError>(
                Some(2),
            )
            &&& reading::lookup_in(mounted, 1, files.1.name) == Ok::<Option<u64>, BafsError>(
                Some(3),
            )
            &&& reading::file_read(mounted, 2, at, length) == Ok::<Seq<u8>, BafsError>(
                reading::part_of(files.0.data, at, length),
            )
            &&& reading::file_read(mounted, 3, at, length) == Ok::<Seq<u8>, BafsError>(
                reading::part_of(files.1.data, at, length),
            )
        }),
{
    let calls = two_files_put(files, one_by_one, creations, firsts, outcomes);
    lemma_two_files_put(
        disk,
        total_block_count,
        options,
        files,
        one_by_one,
        creations,
        firsts,
        outcomes,
    );
    law_new_volume_keeps_files(
        disk,
        total_block_count,
        options,
        calls,
        volumes,
        after,
        entries,
        unmounting,
        2,
        at,
        length,
    );
    law_new_volume_keeps_files(
        disk,
        total_block_count,
        options,
        calls,
        volumes,
        after,
        entries,
        unmounting,
        3,
        at,
        length,
    );
    lemma_two_files_succeeded(files, one_by_one, creations, firsts, outcomes);
}

/// What the results are where the calls for two files succeeded.
proof fn lemma_two_files_succeeded(
    files: (StoredFile, StoredFile),
    one_by_one: bool,
    creations: (Result<u64, BafsError>, Result<u64, BafsError>),
    firsts: (int, int),
    outcomes: (Result<usize, BafsError>, Result<usize, BafsError>),
)
    requires
        all_succeeded(1, two_files_put(files, one_by_one, creations, firsts, outcomes)),
    ensures
        creations.0 == Ok::<u64, BafsError>(2),
        creations.1 == Ok::<u64, BafsError>(3),
        outcomes.0 is Ok,
        outcomes.0->Ok_0 == files.0.data.len(),
        outcomes.1 is Ok,
        outcomes.1->Ok_0 == files.1.data.len(),
{
    let calls = two_files_put(files, one_by_one, creations, firsts, outcomes);
    let none = Seq::<Call>::empty();
    let one = none.push(calls[0]);
    let two = one.push(calls[1]);
    let three = two.push(calls[2]);
    assert(calls =~= three.push(calls[3]));
    lemma_one_more_success(1, three, calls[3]);
    lemma_one_more_success(1, two, calls[2]);
    lemma_one_more_success(1, one, calls[1]);
    lemma_one_more_success(1, none, calls[0]);
}

/// Two files of together at most eight blocks fit on every new volume with 300 blocks
/// behind the journal.
pub proof fn law_small_files_fit(total_block_count: u64, load: Load)
    requires
        superblock::data_area_start(total_block_count) + 300 <= total_block_count,
        load.creations <= 2,
        load.writes <= 2,
        load.blocks <= 8,
    ensures
        fits_new_volume(total_block_count, load),
        fits_new_journal(total_block_count, load),
{
    let heights = new_heights().under(load);
    assert(heights.inodes <= 2 && heights.free_extents <= 2 && heights.checksums <= 1);
    let most = Load { creations: 2, writes: 2, blocks: 8 };
    let high = Heights { inodes: 2, free_extents: 2, checksums: 1 };
    lemma_lower_is_cheaper(heights, high, load);
    capacity::lemma_cost_within(high, most, load);
    assert(high.cost(most) == 124);
}

} // verus!
