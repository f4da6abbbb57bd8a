//! Directories: names, and the inodes that they stand for.
//!
//! An entry is an item of the inode tree, under the directory's number and the
//! hash of the name. Names with the same hash share one item, which holds their
//! entries one after the other.
//!
//! ```text
//! offset  size  field
//!      0     8  inode number of the child
//!      8     1  kind of the child
//!      9     1  length of the name in bytes
//!     10     2  zero
//!     12        the name, in UTF-8
//! ```

use std::collections::BTreeMap;
use vstd::prelude::*;
use vstd::slice::{slice_subrange, slice_to_vec};
use vstd::utf8;
use crate::block_device::BlockDevice;
use crate::btree::key::{BafsKey, ITEM_TYPE_DIRECTORY_ENTRY};
use crate::btree::model;
use crate::btree::node;
use crate::btree::node::LeafEntry;
use crate::btree::store;
use crate::btree::tree;
use crate::bytes;
use crate::error::BafsError;
use crate::hash;

pub use crate::hash::xxhash64_with_seed_zero;

verus! {

broadcast use {crate::btree::store::lemma_stamped_none, crate::bytes::lemma_le_bytes_len};

/// Kind of a child: not known.
pub const CHILD_TYPE_UNKNOWN: u8 = 0;

/// Kind of a child: a named pipe.
pub const CHILD_TYPE_FIFO: u8 = 1;

/// Kind of a child: a character device.
pub const CHILD_TYPE_CHAR_DEVICE: u8 = 2;

/// Kind of a child: a directory.
pub const CHILD_TYPE_DIRECTORY: u8 = 4;

/// Kind of a child: a block device.
pub const CHILD_TYPE_BLOCK_DEVICE: u8 = 6;

/// Kind of a child: a regular file.
pub const CHILD_TYPE_REGULAR_FILE: u8 = 8;

/// Kind of a child: a symbolic link.
pub const CHILD_TYPE_SYMLINK: u8 = 10;

/// Kind of a child: a socket.
pub const CHILD_TYPE_SOCKET: u8 = 12;

/// A directory entry.
#[derive(Clone, Debug)]
pub struct BafsDirEntry {
    /// Inode number of the child.
    pub child_inode_number: u64,
    /// Kind of the child.
    pub child_type: u8,
    /// Length of the name in bytes, from 1 to 255.
    pub name_length_bytes: u8,
    /// The name.
    pub filename: String,
}

/// What a directory entry stands for.
#[verifier::ext_equal]
pub struct EntryModel {
    pub child_inode_number: u64,
    pub child_type: u8,
    pub name_length_bytes: u8,
    pub filename: Seq<char>,
}

impl View for BafsDirEntry {
    type V = EntryModel;

    open spec fn view(&self) -> EntryModel {
        EntryModel {
            child_inode_number: self.child_inode_number,
            child_type: self.child_type,
            name_length_bytes: self.name_length_bytes,
            filename: self.filename@,
        }
    }
}

/// The text that `String::from_utf8_lossy` makes of bytes that are not UTF-8.
pub uninterp spec fn lossy_text(source: Seq<u8>) -> Seq<char>;

/// The text that bytes stand for.
pub open spec fn text_of(source: Seq<u8>) -> Seq<char> {
    if utf8::valid_utf8(source) {
        utf8::decode_utf8(source)
    } else {
        lossy_text(source)
    }
}

/// The text that bytes stand for, by `String::from_utf8_lossy`: bytes that are
/// UTF-8 are decoded as they stand, and of others it is claimed only that the
/// text depends on the bytes alone. Which characters it replaces in them is left
/// unsaid.
#[verifier::external_body]
fn text_from_bytes(source: &[u8]) -> (text: String)
    ensures
        utf8::valid_utf8(source@) ==> text@ == utf8::decode_utf8(source@),
        !utf8::valid_utf8(source@) ==> text@ == lossy_text(source@),
{
    String::from_utf8_lossy(source).into_owned()
}

/// The encoding of an entry.
pub open spec fn entry_bytes(entry: EntryModel) -> Seq<u8> {
    bytes::le_bytes(entry.child_inode_number as nat, 8) + seq![
        entry.child_type,
        entry.name_length_bytes,
        0u8,
        0u8,
    ] + utf8::encode_utf8(entry.filename)
}

/// The entry at the start of `source`.
pub open spec fn entry_in(source: Seq<u8>) -> Result<EntryModel, BafsError> {
    if source.len() < 12 || source.len() < 12 + source[9] {
        Err(BafsError::CorruptedStructure)
    } else {
        Ok(
            EntryModel {
                child_inode_number: bytes::field(source, 0, 8) as u64,
                child_type: source[8],
                name_length_bytes: source[9],
                filename: text_of(source.subrange(12, 12 + source[9])),
            },
        )
    }
}

/// How many bytes the entry at the start of `source` takes.
pub open spec fn entry_size(source: Seq<u8>) -> int {
    12 + source[9]
}

/// The entry with the given name in an item's value.
pub open spec fn find_entry(value: Seq<u8>, name: Seq<char>) -> Result<
    Option<EntryModel>,
    BafsError,
>
    decreases value.len(),
{
    match entry_in(value) {
        Err(error) => Err(error),
        Ok(entry) => if entry.filename == name {
            Ok(Some(entry))
        } else if value.len() == entry_size(value) {
            Ok(None)
        } else {
            find_entry(value.skip(entry_size(value)), name)
        },
    }
}

/// All entries in an item's value.
pub open spec fn all_entries(value: Seq<u8>) -> Result<Seq<EntryModel>, BafsError>
    decreases value.len(),
{
    match entry_in(value) {
        Err(error) => Err(error),
        Ok(entry) => if value.len() == entry_size(value) {
            Ok(seq![entry])
        } else {
            match all_entries(value.skip(entry_size(value))) {
                Err(error) => Err(error),
                Ok(rest) => Ok(seq![entry] + rest),
            }
        },
    }
}

/// An item's value without the entry that has the given name.
pub open spec fn without_entry(value: Seq<u8>, name: Seq<char>) -> Seq<u8>
    decreases value.len(),
{
    match entry_in(value) {
        Err(_) => value,
        Ok(entry) => if entry.filename == name {
            value.skip(entry_size(value))
        } else if value.len() == entry_size(value) {
            value
        } else {
            value.take(entry_size(value)) + without_entry(value.skip(entry_size(value)), name)
        },
    }
}

/// Taking an entry out does not lengthen a value.
pub proof fn lemma_without_entry_shorter(value: Seq<u8>, name: Seq<char>)
    ensures
        without_entry(value, name).len() <= value.len(),
    decreases value.len(),
{
    if entry_in(value) is Ok && entry_in(value)->Ok_0.filename != name && value.len()
        != entry_size(value) {
        lemma_without_entry_shorter(value.skip(entry_size(value)), name);
    }
}

/// The key of the item that holds the entry for `name`.
pub open spec fn entry_key(parent_inode_number: u64, name: Seq<char>) -> BafsKey {
    BafsKey {
        object_id: parent_inode_number,
        item_type: ITEM_TYPE_DIRECTORY_ENTRY,
        offset: hash::xxhash64(utf8::encode_utf8(name)),
    }
}

/// Where the entry for a name is kept: under the directory's number, and apart from
/// the entry for a name of the same length that differs in one byte only, which lies
/// behind the last whole stripe of 32 bytes.
pub proof fn law_similar_names_are_kept_apart(
    parent_inode_number: u64,
    left: Seq<char>,
    right: Seq<char>,
    position: int,
)
    requires
        utf8::encode_utf8(left).len() == utf8::encode_utf8(right).len(),
        32 * (utf8::encode_utf8(left).len() / 32) <= position < utf8::encode_utf8(left).len(),
        utf8::encode_utf8(left)[position] != utf8::encode_utf8(right)[position],
        forall|i: int|
            0 <= i < utf8::encode_utf8(left).len() && i != position ==> utf8::encode_utf8(left)[i]
                == utf8::encode_utf8(right)[i],
    ensures
        entry_key(parent_inode_number, left) != entry_key(parent_inode_number, right),
        entry_key(parent_inode_number, left).object_id == parent_inode_number,
        entry_key(parent_inode_number, left).item_type == 2,
{
    hash::law_every_byte_matters(utf8::encode_utf8(left), utf8::encode_utf8(right), position);
}

/// The entry for `name` in a record, or why it cannot be told.
pub open spec fn entry_of_record(
    record: Result<Option<Seq<u8>>, BafsError>,
    name: Seq<char>,
) -> Result<Option<EntryModel>, BafsError> {
    match record {
        Err(error) => Err(error),
        Ok(None) => Ok(None),
        Ok(Some(value)) => find_entry(value, name),
    }
}

/// What a list of entries stands for.
pub open spec fn entry_models(entries: Seq<BafsDirEntry>) -> Seq<EntryModel> {
    entries.map_values(|entry: BafsDirEntry| entry@)
}

/// The first of the entries with the given name.
pub open spec fn list_find(entries: Seq<EntryModel>, name: Seq<char>) -> Option<EntryModel>
    decreases entries.len(),
{
    if entries.len() == 0 {
        None
    } else if entries[0].filename == name {
        Some(entries[0])
    } else {
        list_find(entries.drop_first(), name)
    }
}

/// The entries without the first one that has the given name.
pub open spec fn list_without(entries: Seq<EntryModel>, name: Seq<char>) -> Seq<EntryModel>
    decreases entries.len(),
{
    if entries.len() == 0 {
        entries
    } else if entries[0].filename == name {
        entries.drop_first()
    } else {
        seq![entries[0]] + list_without(entries.drop_first(), name)
    }
}

/// No two entries have the same name.
pub open spec fn names_distinct(entries: Seq<EntryModel>) -> bool {
    forall|i: int, j: int|
        0 <= i < j < entries.len() ==> (#[trigger] entries[i]).filename != (#[trigger] entries[j]).filename
}

/// The entry can be stored: its name has a valid length, which is recorded.
pub open spec fn entry_ok(entry: EntryModel) -> bool {
    &&& 0 < utf8::encode_utf8(entry.filename).len() <= 255
    &&& entry.name_length_bytes == utf8::encode_utf8(entry.filename).len()
}

/// Reading back an encoded entry gives the entry, whatever follows it.
pub proof fn law_entry_round_trip(entry: EntryModel, rest: Seq<u8>)
    requires
        entry_ok(entry),
    ensures
        entry_bytes(entry).len() == 12 + entry.name_length_bytes,
        entry_in(entry_bytes(entry) + rest) == Ok::<EntryModel, BafsError>(entry),
        entry_size(entry_bytes(entry) + rest) == entry_bytes(entry).len(),
        (entry_bytes(entry) + rest).skip(entry_bytes(entry).len() as int) == rest,
{
    bytes::lemma_byte_capacities();
    utf8::encode_utf8_valid_utf8(entry.filename);
    utf8::encode_utf8_decode_utf8(entry.filename);
    let source = entry_bytes(entry) + rest;
    assert(source.subrange(0, 8) =~= bytes::le_bytes(entry.child_inode_number as nat, 8));
    bytes::lemma_field(source, 0, 8, entry.child_inode_number as nat);
    assert(source.subrange(12, 12 + entry.name_length_bytes) =~= utf8::encode_utf8(entry.filename));
    assert(source.skip(entry_bytes(entry).len() as int) =~= rest);
}

/// Looking for a name in a value is looking for it among the value's entries.
pub proof fn lemma_find_in_list(value: Seq<u8>, name: Seq<char>)
    requires
        all_entries(value) is Ok,
    ensures
        find_entry(value, name) == Ok::<Option<EntryModel>, BafsError>(
            list_find(all_entries(value)->Ok_0, name),
        ),
        all_entries(value)->Ok_0.len() > 0,
    decreases value.len(),
{
    let entry = entry_in(value)->Ok_0;
    let list = all_entries(value)->Ok_0;
    if value.len() == entry_size(value) {
        assert(list.drop_first() =~= Seq::empty());
        assert(list_find(list.drop_first(), name) is None);
    } else {
        let rest = value.skip(entry_size(value));
        lemma_find_in_list(rest, name);
        assert(list.drop_first() =~= all_entries(rest)->Ok_0);
    }
}

/// An entry that is appended to a value is appended to its entries.
pub proof fn lemma_append_entry(value: Seq<u8>, entry: EntryModel)
    requires
        all_entries(value) is Ok,
        entry_ok(entry),
    ensures
        all_entries(value + entry_bytes(entry)) == Ok::<Seq<EntryModel>, BafsError>(
            all_entries(value)->Ok_0.push(entry),
        ),
    decreases value.len(),
{
    let longer = value + entry_bytes(entry);
    let size = entry_size(value);
    let list = all_entries(value)->Ok_0;
    lemma_single_entry(entry);
    assert(longer.subrange(12, size) =~= value.subrange(12, size));
    assert(longer.subrange(0, 8) =~= value.subrange(0, 8));
    assert(entry_in(longer) == entry_in(value));
    assert(longer.skip(size) =~= value.skip(size) + entry_bytes(entry));
    if value.len() == size {
        assert(longer.skip(size) =~= entry_bytes(entry));
        assert(list.push(entry) =~= seq![list[0]] + seq![entry]);
    } else {
        lemma_append_entry(value.skip(size), entry);
        let rest = all_entries(value.skip(size))->Ok_0;
        assert(list.push(entry) =~= seq![entry_in(value)->Ok_0] + rest.push(entry));
    }
}

pub proof fn lemma_single_entry(entry: EntryModel)
    requires
        entry_ok(entry),
    ensures
        all_entries(entry_bytes(entry)) == Ok::<Seq<EntryModel>, BafsError>(seq![entry]),
        entry_bytes(entry).len() == 12 + entry.name_length_bytes,
{
    law_entry_round_trip(entry, Seq::empty());
    assert(entry_bytes(entry) + Seq::<u8>::empty() =~= entry_bytes(entry));
}

/// Removing a name from a value removes it from its entries.
pub proof fn lemma_remove_entry(value: Seq<u8>, name: Seq<char>)
    requires
        all_entries(value) is Ok,
        list_find(all_entries(value)->Ok_0, name) is Some,
    ensures
        without_entry(value, name).len() < value.len(),
        without_entry(value, name).len() == 0 <==> list_without(
            all_entries(value)->Ok_0,
            name,
        ).len() == 0,
        without_entry(value, name).len() > 0 ==> all_entries(without_entry(value, name)) == Ok::<
            Seq<EntryModel>,
            BafsError,
        >(list_without(all_entries(value)->Ok_0, name)),
    decreases value.len(),
{
    let entry = entry_in(value)->Ok_0;
    let list = all_entries(value)->Ok_0;
    let size = entry_size(value);
    if value.len() == size {
        assert(list.drop_first() =~= Seq::empty());
        assert(list_find(list.drop_first(), name) is None);
        assert(value.skip(size) =~= Seq::empty());
    } else {
        let rest = value.skip(size);
        let others = all_entries(rest)->Ok_0;
        assert(list.drop_first() =~= others);
        lemma_find_in_list(rest, name);
        if entry.filename != name {
            lemma_remove_entry(rest, name);
            let shorter = without_entry(rest, name);
            let result = value.take(size) + shorter;
            assert(result.subrange(12, size) =~= value.subrange(12, size));
            assert(result.subrange(0, 8) =~= value.subrange(0, 8));
            assert(entry_in(result) == entry_in(value));
            assert(result.skip(size) =~= shorter);
            if shorter.len() == 0 {
                assert(seq![entry] + list_without(others, name) =~= seq![entry]);
            }
        }
    }
}

/// In a list without duplicates a name that was removed is gone, and every other
/// one is still there.
pub proof fn lemma_list_without(entries: Seq<EntryModel>, name: Seq<char>)
    requires
        names_distinct(entries),
    ensures
        names_distinct(list_without(entries, name)),
        forall|other: Seq<char>| #[trigger]
            list_find(list_without(entries, name), other) == if other == name {
                None
            } else {
                list_find(entries, other)
            },
        forall|i: int|
            0 <= i < list_without(entries, name).len() ==> entries.contains(
                #[trigger] list_without(entries, name)[i],
            ),
    decreases entries.len(),
{
    let result = list_without(entries, name);
    if entries.len() > 0 {
        let rest = entries.drop_first();
        assert(names_distinct(rest)) by {
            assert forall|i: int, j: int| 0 <= i < j < rest.len() implies (#[trigger] rest[i]).filename
                != (#[trigger] rest[j]).filename by {
                assert(rest[i] == entries[i + 1] && rest[j] == entries[j + 1]);
            }
        }
        lemma_list_without(rest, name);
        if entries[0].filename == name {
            assert(list_find(rest, name) is None) by {
                lemma_list_absent(rest, name);
            }
            assert forall|i: int| 0 <= i < result.len() implies entries.contains(
                #[trigger] result[i],
            ) by {
                assert(result[i] == entries[i + 1]);
            }
        } else {
            let shorter = list_without(rest, name);
            assert(result.drop_first() =~= shorter);
            assert forall|other: Seq<char>| #[trigger]
                list_find(result, other) == if other == name {
                    None
                } else {
                    list_find(entries, other)
                } by {
                assert(list_find(shorter, other) == if other == name {
                    None
                } else {
                    list_find(rest, other)
                });
            }
            assert forall|i: int| 0 <= i < result.len() implies entries.contains(
                #[trigger] result[i],
            ) by {
                if i == 0 {
                    assert(result[0] == entries[0]);
                } else {
                    assert(result[i] == shorter[i - 1]);
                    assert(rest.contains(shorter[i - 1]));
                    let k = choose|k: int| 0 <= k < rest.len() && rest[k] == shorter[i - 1];
                    assert(entries[k + 1] == shorter[i - 1]);
                }
            }
            assert forall|i: int, j: int| 0 <= i < j < result.len() implies (#[trigger] result[i]).filename
                != (#[trigger] result[j]).filename by {
                assert(result[j] == shorter[j - 1]);
                if i == 0 {
                    assert(rest.contains(shorter[j - 1]));
                    let k = choose|k: int| 0 <= k < rest.len() && rest[k] == shorter[j - 1];
                    assert(entries[k + 1] == shorter[j - 1]);
                } else {
                    assert(result[i] == shorter[i - 1]);
                }
            }
        }
    }
}

proof fn lemma_list_absent(entries: Seq<EntryModel>, name: Seq<char>)
    requires
        forall|i: int| 0 <= i < entries.len() ==> (#[trigger] entries[i]).filename != name,
    ensures
        list_find(entries, name) is None,
    decreases entries.len(),
{
    if entries.len() > 0 {
        let rest = entries.drop_first();
        assert forall|i: int| 0 <= i < rest.len() implies (#[trigger] rest[i]).filename != name by {
            assert(rest[i] == entries[i + 1]);
        }
        lemma_list_absent(rest, name);
    }
}

/// A name that is found is the name of an entry of the list.
pub proof fn lemma_list_present(entries: Seq<EntryModel>, name: Seq<char>)
    ensures
        list_find(entries, name) matches Some(entry) ==> entry.filename == name
            && entries.contains(entry),
        list_find(entries, name) is None ==> forall|i: int|
            0 <= i < entries.len() ==> (#[trigger] entries[i]).filename != name,
    decreases entries.len(),
{
    if entries.len() > 0 {
        let rest = entries.drop_first();
        lemma_list_present(rest, name);
        if entries[0].filename != name {
            match list_find(rest, name) {
                Some(entry) => {
                    let k = choose|k: int| 0 <= k < rest.len() && rest[k] == entry;
                    assert(entries[k + 1] == entry);
                },
                None => {
                    assert forall|i: int| 0 <= i < entries.len() implies (#[trigger] entries[i]).filename
                        != name by {
                        if i > 0 {
                            assert(rest[i - 1] == entries[i]);
                        }
                    }
                },
            }
        } else {
            assert(entries[0].filename == name);
        }
    }
}

/// A new name that is appended is found, and so is every other one as before.
pub proof fn lemma_list_push(entries: Seq<EntryModel>, entry: EntryModel)
    requires
        list_find(entries, entry.filename) is None,
    ensures
        forall|other: Seq<char>| #[trigger]
            list_find(entries.push(entry), other) == if other == entry.filename {
                Some(entry)
            } else {
                list_find(entries, other)
            },
        names_distinct(entries) ==> names_distinct(entries.push(entry)),
    decreases entries.len(),
{
    let longer = entries.push(entry);
    lemma_list_present(entries, entry.filename);
    if entries.len() == 0 {
        assert(longer.drop_first() =~= Seq::empty());
        assert forall|other: Seq<char>| #[trigger]
            list_find(longer, other) == if other == entry.filename {
                Some(entry)
            } else {
                list_find(entries, other)
            } by {
            assert(list_find(longer.drop_first(), other) is None);
        }
    } else {
        let rest = entries.drop_first();
        assert(longer.drop_first() =~= rest.push(entry));
        lemma_list_push(rest, entry);
        assert forall|other: Seq<char>| #[trigger]
            list_find(longer, other) == if other == entry.filename {
                Some(entry)
            } else {
                list_find(entries, other)
            } by {
            assert(list_find(rest.push(entry), other) == if other == entry.filename {
                Some(entry)
            } else {
                list_find(rest, other)
            });
        }
    }
}

fn names_equal(left: &str, right: &str) -> (equal: bool)
    ensures
        equal == (left@ == right@),
{
    proof {
        utf8::encode_utf8_decode_utf8(left@);
        utf8::encode_utf8_decode_utf8(right@);
    }
    bytes::bytes_equal(left.as_bytes(), right.as_bytes())
}

/// The encoding of an entry.
pub fn serialise_dir_entry_to_bytes(entry: &BafsDirEntry) -> (output: Vec<u8>)
    ensures
        output@ == entry_bytes(entry@),
{
    let mut output: Vec<u8> = Vec::new();
    bytes::append_le(&mut output, entry.child_inode_number, 8);
    output.push(entry.child_type);
    output.push(entry.name_length_bytes);
    output.push(0);
    output.push(0);
    bytes::append_slice(&mut output, entry.filename.as_str().as_bytes());
    assert(output@ =~= entry_bytes(entry@));
    output
}

/// The entry at the start of `source`.
pub fn deserialise_dir_entry_from_bytes(source: &[u8]) -> (result: Result<BafsDirEntry, BafsError>)
    ensures
        match result {
            Ok(entry) => entry_in(source@) == Ok::<EntryModel, BafsError>(entry@),
            Err(error) => entry_in(source@) == Err::<EntryModel, BafsError>(error),
        },
{
    if source.len() < 12 {
        return Err(BafsError::CorruptedStructure);
    }
    proof {
        bytes::lemma_byte_capacities();
    }
    let child_inode_number: u64 = bytes::read_le(source, 0, 8);
    let child_type: u8 = source[8];
    let name_length_bytes: u8 = source[9];
    let name_end: usize = 12 + name_length_bytes as usize;
    if source.len() < name_end {
        return Err(BafsError::CorruptedStructure);
    }
    let filename = text_from_bytes(slice_subrange(source, 12, name_end));
    Ok(BafsDirEntry { child_inode_number, child_type, name_length_bytes, filename })
}

/// Find the entry with the given name in an item's value, and where it starts.
fn locate_entry(value: &[u8], name: &str) -> (result: Result<
    Option<(usize, BafsDirEntry)>,
    BafsError,
>)
    ensures
        match result {
            Err(error) => find_entry(value@, name@) == Err::<Option<EntryModel>, BafsError>(error),
            Ok(None) => find_entry(value@, name@) == Ok::<Option<EntryModel>, BafsError>(None),
            Ok(Some((offset, entry))) => {
                &&& find_entry(value@, name@) == Ok::<Option<EntryModel>, BafsError>(Some(entry@))
                &&& offset + 12 + entry.name_length_bytes <= value@.len()
                &&& without_entry(value@, name@) == value@.take(offset as int) + value@.skip(
                    offset + 12 + entry.name_length_bytes,
                )
            },
        },
{
    let mut offset: usize = 0;
    assert(value@.skip(0) =~= value@);
    assert(value@.take(0) + without_entry(value@.skip(0), name@) =~= without_entry(value@, name@));
    loop
        invariant
            offset <= value@.len(),
            offset < value@.len() || offset == 0,
            find_entry(value@, name@) == find_entry(value@.skip(offset as int), name@),
            without_entry(value@, name@) == value@.take(offset as int) + without_entry(
                value@.skip(offset as int),
                name@,
            ),
        decreases value@.len() - offset,
    {
        let rest = slice_subrange(value, offset, value.len());
        let ghost tail = value@.skip(offset as int);
        assert(rest@ =~= tail);
        let entry = match deserialise_dir_entry_from_bytes(rest) {
            Ok(entry) => entry,
            Err(error) => {
                return Err(error);
            },
        };
        let size: usize = 12 + entry.name_length_bytes as usize;
        assert(tail.skip(size as int) =~= value@.skip(offset + size));
        if names_equal(entry.filename.as_str(), name) {
            return Ok(Some((offset, entry)));
        }
        if rest.len() == size {
            return Ok(None);
        }
        assert(value@.take(offset as int) + (tail.take(size as int) + without_entry(
            tail.skip(size as int),
            name@,
        )) =~= value@.take(offset + size) + without_entry(tail.skip(size as int), name@));
        offset = offset + size;
    }
}

/// All entries in an item's value, appended to `output`.
fn append_entries(value: &[u8], output: &mut Vec<BafsDirEntry>) -> (result: Result<(), BafsError>)
    ensures
        match result {
            Ok(_) => all_entries(value@) is Ok && entry_models(final(output)@) == entry_models(
                old(output)@,
            ) + all_entries(value@)->Ok_0,
            Err(error) => all_entries(value@) == Err::<Seq<EntryModel>, BafsError>(error),
        },
    decreases value@.len(),
{
    let entry = match deserialise_dir_entry_from_bytes(value) {
        Ok(entry) => entry,
        Err(error) => {
            return Err(error);
        },
    };
    let ghost first = entry@;
    let size: usize = 12 + entry.name_length_bytes as usize;
    output.push(entry);
    assert(entry_models(output@) =~= entry_models(old(output)@) + seq![first]);
    if value.len() == size {
        return Ok(());
    }
    let rest = slice_subrange(value, size, value.len());
    assert(rest@ =~= value@.skip(size as int));
    let result = append_entries(rest, output);
    proof {
        if result is Ok {
            let others = all_entries(rest@)->Ok_0;
            assert(entry_models(old(output)@) + seq![first] + others =~= entry_models(old(output)@)
                + (seq![first] + others));
        }
    }
    result
}

fn make_directory_entry_key(parent_inode_number: u64, filename: &str) -> (key: BafsKey)
    ensures
        key == entry_key(parent_inode_number, filename@),
{
    let filename_hash: u64 = hash::xxhash64_with_seed_zero(filename.as_bytes());
    BafsKey::new(parent_inode_number, ITEM_TYPE_DIRECTORY_ENTRY, filename_hash)
}

/// What an optional entry stands for.
pub open spec fn optional_entry(entry: Option<BafsDirEntry>) -> Option<EntryModel> {
    match entry {
        Some(entry) => Some(entry@),
        None => None,
    }
}

/// Find the entry for a name in a directory, if there is one.
pub fn directory_lookup_entry<D: BlockDevice>(
    device: &D,
    dirty_cache: &BTreeMap<u64, Vec<u8>>,
    inode_tree_root_block: u64,
    parent_inode_number: u64,
    target_filename: &str,
) -> (result: Result<Option<BafsDirEntry>, BafsError>)
    requires
        store::cache_valid(dirty_cache@),
    ensures
        ({
            let expected = entry_of_record(
                model::tree_get(
                    store::visible_blocks(device.contents(), dirty_cache@),
                    inode_tree_root_block,
                    entry_key(parent_inode_number, target_filename@),
                ),
                target_filename@,
            );
            match result {
                Ok(entry) => expected == Ok::<Option<EntryModel>, BafsError>(
                    optional_entry(entry),
                ),
                Err(error) => expected == Err::<Option<EntryModel>, BafsError>(error) || error
                    == BafsError::InputOutputError && !device.reliable(),
            }
        }),
{
    let key = make_directory_entry_key(parent_inode_number, target_filename);
    match tree::lookup_in_tree(device, dirty_cache, inode_tree_root_block, key) {
        Err(error) => Err(error),
        Ok(None) => Ok(None),
        Ok(Some(value)) => match locate_entry(value.as_slice(), target_filename) {
            Err(error) => Err(error),
            Ok(None) => Ok(None),
            Ok(Some((_, entry))) => Ok(Some(entry)),
        },
    }
}

/// The entry that is added to a directory.
pub open spec fn new_entry(name: Seq<char>, child_inode_number: u64, child_type: u8) -> EntryModel {
    EntryModel {
        child_inode_number,
        child_type,
        name_length_bytes: utf8::encode_utf8(name).len() as u8,
        filename: name,
    }
}

/// The value of an item once an entry was added to it.
pub open spec fn value_with_entry(
    record: Result<Option<Seq<u8>>, BafsError>,
    entry: EntryModel,
) -> Seq<u8> {
    match record {
        Ok(Some(value)) => value + entry_bytes(entry),
        _ => entry_bytes(entry),
    }
}

/// Why a name cannot be added to a directory, as far as the name and the directory
/// tell.
pub open spec fn create_entry_error(
    record: Result<Option<Seq<u8>>, BafsError>,
    name: Seq<char>,
) -> Option<BafsError> {
    let length = utf8::encode_utf8(name).len();
    if length == 0 || length > 255 {
        Some(BafsError::InvalidArgument)
    } else {
        match entry_of_record(record, name) {
            Err(error) => Some(error),
            Ok(Some(_)) => Some(BafsError::AlreadyExists),
            Ok(None) => None,
        }
    }
}

/// The result of adding an entry whose item was put into the tree with the result
/// `inserted`.
pub open spec fn entry_result(inserted: Result<u64, BafsError>) -> Result<u64, BafsError> {
    match inserted {
        Ok(root) => Ok(root),
        Err(error) => if error == BafsError::InvalidArgument {
            Err(BafsError::OutOfSpace)
        } else {
            Err(error)
        },
    }
}

/// Check that a name can be added to a directory, as far as the name and the
/// directory tell.
pub fn check_new_entry<D: BlockDevice>(
    device: &D,
    dirty_cache: &BTreeMap<u64, Vec<u8>>,
    inode_tree_root_block: u64,
    parent_inode_number: u64,
    child_filename: &str,
) -> (result: Result<(), BafsError>)
    requires
        store::cache_valid(dirty_cache@),
    ensures
        ({
            let record = model::tree_get(
                store::visible_blocks(device.contents(), dirty_cache@),
                inode_tree_root_block,
                entry_key(parent_inode_number, child_filename@),
            );
            match result {
                Ok(_) => create_entry_error(record, child_filename@) is None,
                Err(error) => create_entry_error(record, child_filename@) == Some(error) || error
                    == BafsError::InputOutputError && !device.reliable(),
            }
        }),
{
    let name_length: usize = child_filename.as_bytes().len();
    if name_length == 0 || name_length > 255 {
        return Err(BafsError::InvalidArgument);
    }
    let key = make_directory_entry_key(parent_inode_number, child_filename);
    match tree::lookup_in_tree(device, dirty_cache, inode_tree_root_block, key) {
        Err(error) => Err(error),
        Ok(None) => Ok(()),
        Ok(Some(existing)) => match locate_entry(existing.as_slice(), child_filename) {
            Err(error) => Err(error),
            Ok(Some(_)) => Err(BafsError::AlreadyExists),
            Ok(None) => Ok(()),
        },
    }
}

/// Add a name to a directory. Returns the address of the inode tree's new root.
///
/// Fails with `InvalidArgument` where the name is empty or longer than 255
/// bytes, with `AlreadyExists` where the directory has the name already, and
/// with `OutOfSpace` where so many names have the same hash that the item of
/// their entries fits neither into its leaf nor into one of the two that its leaf
/// can be divided into.
pub fn directory_create_entry<D: BlockDevice>(
    device: &D,
    dirty_cache: &mut BTreeMap<u64, Vec<u8>>,
    inode_tree_root_block: u64,
    parent_inode_number: u64,
    child_filename: &str,
    child_inode_number: u64,
    child_type: u8,
    generation: u64,
    next_free_block: &mut u64,
    freed_blocks: &mut Vec<u64>,
) -> (result: Result<u64, BafsError>)
    requires
        store::cache_valid(old(dirty_cache)@),
        *old(next_free_block) + 512 <= u64::MAX,
    ensures
        store::stamped(
            final(dirty_cache)@,
            *old(next_free_block) as int,
            *final(next_free_block) as int,
            generation,
        ),
        ({
            let key = entry_key(parent_inode_number, child_filename@);
            let record = model::tree_get(
                store::visible_blocks(device.contents(), old(dirty_cache)@),
                inode_tree_root_block,
                key,
            );
            match create_entry_error(record, child_filename@) {
                Some(error) => {
                    &&& result == Err::<u64, BafsError>(error) || result == Err::<u64, BafsError>(
                        BafsError::InputOutputError,
                    ) && !device.reliable()
                    &&& final(dirty_cache)@ == old(dirty_cache)@
                    &&& *final(next_free_block) == *old(next_free_block)
                    &&& final(freed_blocks)@ == old(freed_blocks)@
                },
                None => exists|inserted: Result<u64, BafsError>| #[trigger]
                    tree::insertion_outcome(
                        device.contents(),
                        old(dirty_cache)@,
                        final(dirty_cache)@,
                        device.reliable(),
                        inode_tree_root_block,
                        key,
                        value_with_entry(
                            record,
                            new_entry(child_filename@, child_inode_number, child_type),
                        ),
                        *old(next_free_block),
                        *final(next_free_block),
                        old(freed_blocks)@,
                        final(freed_blocks)@,
                        inserted,
                    ) && result == entry_result(inserted),
            }
        }),
{
    let name_length: usize = child_filename.as_bytes().len();
    if name_length == 0 || name_length > 255 {
        return Err(BafsError::InvalidArgument);
    }
    let key = make_directory_entry_key(parent_inode_number, child_filename);
    let mut value: Vec<u8> = Vec::new();
    match tree::lookup_in_tree(device, dirty_cache, inode_tree_root_block, key) {
        Err(error) => {
            proof {
                let record = model::tree_get(
                    store::visible_blocks(device.contents(), old(dirty_cache)@),
                    inode_tree_root_block,
                    key,
                );
                if record is Ok {
                    assert(tree::insertion_outcome(
                        device.contents(),
                        old(dirty_cache)@,
                        dirty_cache@,
                        device.reliable(),
                        inode_tree_root_block,
                        key,
                        value_with_entry(
                            record,
                            new_entry(child_filename@, child_inode_number, child_type),
                        ),
                        *old(next_free_block),
                        *next_free_block,
                        old(freed_blocks)@,
                        freed_blocks@,
                        Err(error),
                    ));
                }
            }
            return Err(error);
        },
        Ok(None) => {},
        Ok(Some(existing)) => {
            match locate_entry(existing.as_slice(), child_filename) {
                Err(error) => {
                    return Err(error);
                },
                Ok(Some(_)) => {
                    return Err(BafsError::AlreadyExists);
                },
                Ok(None) => {},
            }
            value = existing;
        },
    }
    let entry = BafsDirEntry {
        child_inode_number,
        child_type,
        name_length_bytes: name_length as u8,
        filename: child_filename.to_owned(),
    };
    let encoded = serialise_dir_entry_to_bytes(&entry);
    bytes::append_slice(&mut value, encoded.as_slice());
    proof {
        let record = model::tree_get(
            store::visible_blocks(device.contents(), old(dirty_cache)@),
            inode_tree_root_block,
            key,
        );
        assert(value@ =~= value_with_entry(
            record,
            new_entry(child_filename@, child_inode_number, child_type),
        ));
    }
    match tree::insert_into_tree(
        device,
        dirty_cache,
        inode_tree_root_block,
        key,
        value,
        generation,
        next_free_block,
        freed_blocks,
    ) {
        Ok(new_root) => Ok(new_root),
        Err(error) => if error == BafsError::InvalidArgument {
            Err(BafsError::OutOfSpace)
        } else {
            Err(error)
        },
    }
}

/// Why a name cannot be removed from a directory, as far as the directory tells.
pub open spec fn unlink_entry_error(
    record: Result<Option<Seq<u8>>, BafsError>,
    name: Seq<char>,
) -> Option<BafsError> {
    match entry_of_record(record, name) {
        Err(error) => Some(error),
        Ok(None) => Some(BafsError::NotFound),
        Ok(Some(_)) => None,
    }
}

/// Remove a name from a directory. Returns the address of the inode tree's new
/// root. The inode that the name stood for is left alone.
///
/// Fails with `NotFound` where the directory does not have the name.
pub fn directory_unlink_entry<D: BlockDevice>(
    device: &D,
    dirty_cache: &mut BTreeMap<u64, Vec<u8>>,
    inode_tree_root_block: u64,
    parent_inode_number: u64,
    target_filename: &str,
    generation: u64,
    next_free_block: &mut u64,
    freed_blocks: &mut Vec<u64>,
) -> (result: Result<u64, BafsError>)
    requires
        store::cache_valid(old(dirty_cache)@),
        *old(next_free_block) + 512 <= u64::MAX,
    ensures
        store::stamped(
            final(dirty_cache)@,
            *old(next_free_block) as int,
            *final(next_free_block) as int,
            generation,
        ),
        ({
            let key = entry_key(parent_inode_number, target_filename@);
            let record = model::tree_get(
                store::visible_blocks(device.contents(), old(dirty_cache)@),
                inode_tree_root_block,
                key,
            );
            match unlink_entry_error(record, target_filename@) {
                Some(error) => {
                    &&& result == Err::<u64, BafsError>(error) || result == Err::<u64, BafsError>(
                        BafsError::InputOutputError,
                    ) && !device.reliable()
                    &&& final(dirty_cache)@ == old(dirty_cache)@
                    &&& *final(next_free_block) == *old(next_free_block)
                    &&& final(freed_blocks)@ == old(freed_blocks)@
                },
                None => {
                    let shorter = without_entry(record->Ok_0->Some_0, target_filename@);
                    if shorter.len() == 0 {
                        tree::deletion_outcome(
                            device.contents(),
                            old(dirty_cache)@,
                            final(dirty_cache)@,
                            device.reliable(),
                            inode_tree_root_block,
                            key,
                            *old(next_free_block),
                            *final(next_free_block),
                            old(freed_blocks)@,
                            final(freed_blocks)@,
                            result,
                        )
                    } else {
                        tree::insertion_outcome(
                            device.contents(),
                            old(dirty_cache)@,
                            final(dirty_cache)@,
                            device.reliable(),
                            inode_tree_root_block,
                            key,
                            shorter,
                            *old(next_free_block),
                            *final(next_free_block),
                            old(freed_blocks)@,
                            final(freed_blocks)@,
                            result,
                        )
                    }
                },
            }
        }),
{
    let key = make_directory_entry_key(parent_inode_number, target_filename);
    let value = match tree::lookup_in_tree(device, dirty_cache, inode_tree_root_block, key) {
        Err(error) => {
            return Err(error);
        },
        Ok(None) => {
            return Err(BafsError::NotFound);
        },
        Ok(Some(value)) => value,
    };
    let (offset, entry) = match locate_entry(value.as_slice(), target_filename) {
        Err(error) => {
            return Err(error);
        },
        Ok(None) => {
            return Err(BafsError::NotFound);
        },
        Ok(Some(found)) => found,
    };
    let end: usize = offset + 12 + entry.name_length_bytes as usize;
    let mut shorter: Vec<u8> = slice_to_vec(slice_subrange(value.as_slice(), 0, offset));
    bytes::append_slice(&mut shorter, slice_subrange(value.as_slice(), end, value.len()));
    assert(shorter@ =~= without_entry(value@, target_filename@));
    if shorter.len() == 0 {
        tree::delete_from_tree(
            device,
            dirty_cache,
            inode_tree_root_block,
            key,
            generation,
            next_free_block,
            freed_blocks,
        )
    } else {
        tree::insert_into_tree(
            device,
            dirty_cache,
            inode_tree_root_block,
            key,
            shorter,
            generation,
            next_free_block,
            freed_blocks,
        )
    }
}

/// The items that hold a directory's entries.
pub open spec fn directory_items(
    blocks: Map<u64, Seq<u8>>,
    root: u64,
    parent_inode_number: u64,
) -> Result<Seq<LeafEntry>, BafsError> {
    model::tree_range(
        blocks,
        root,
        BafsKey {
            object_id: parent_inode_number,
            item_type: ITEM_TYPE_DIRECTORY_ENTRY,
            offset: 0,
        },
        BafsKey {
            object_id: parent_inode_number,
            item_type: ITEM_TYPE_DIRECTORY_ENTRY,
            offset: u64::MAX,
        },
    )
}

/// The entries in the first `count` of the items.
pub open spec fn entries_of_items(items: Seq<LeafEntry>, count: nat) -> Result<
    Seq<EntryModel>,
    BafsError,
>
    decreases count,
{
    if count == 0 {
        Ok(Seq::empty())
    } else {
        match entries_of_items(items, (count - 1) as nat) {
            Err(error) => Err(error),
            Ok(found) => match all_entries(items[count - 1].value) {
                Err(error) => Err(error),
                Ok(more) => Ok(found + more),
            },
        }
    }
}

/// A directory's entries, in the order of the hashes of their names.
pub open spec fn directory_entries(
    blocks: Map<u64, Seq<u8>>,
    root: u64,
    parent_inode_number: u64,
) -> Result<Seq<EntryModel>, BafsError> {
    match directory_items(blocks, root, parent_inode_number) {
        Err(error) => Err(error),
        Ok(items) => entries_of_items(items, items.len()),
    }
}

/// The entry at `index`, counted from the items at `at` on.
pub open spec fn nth_entry(items: Seq<LeafEntry>, at: int, index: int) -> Result<
    Option<EntryModel>,
    BafsError,
>
    decreases items.len() - at,
{
    if at >= items.len() {
        Ok(None)
    } else {
        match all_entries(items[at].value) {
            Err(error) => Err(error),
            Ok(found) => if index < found.len() {
                Ok(Some(found[index]))
            } else {
                nth_entry(items, at + 1, index - found.len())
            },
        }
    }
}

/// The entry at `index` of a directory.
pub open spec fn directory_entry_at(
    blocks: Map<u64, Seq<u8>>,
    root: u64,
    parent_inode_number: u64,
    index: int,
) -> Result<Option<EntryModel>, BafsError> {
    match directory_items(blocks, root, parent_inode_number) {
        Err(error) => Err(error),
        Ok(items) => nth_entry(items, 0, index),
    }
}

/// The entry at position `entry_index` of a directory, in the order of the
/// hashes of the names, or nothing if there are no more.
pub fn directory_iterate<D: BlockDevice>(
    device: &D,
    dirty_cache: &BTreeMap<u64, Vec<u8>>,
    inode_tree_root_block: u64,
    parent_inode_number: u64,
    entry_index: usize,
) -> (result: Result<Option<BafsDirEntry>, BafsError>)
    requires
        store::cache_valid(dirty_cache@),
    ensures
        ({
            let expected = directory_entry_at(
                store::visible_blocks(device.contents(), dirty_cache@),
                inode_tree_root_block,
                parent_inode_number,
                entry_index as int,
            );
            match result {
                Ok(entry) => expected == Ok::<Option<EntryModel>, BafsError>(
                    optional_entry(entry),
                ),
                Err(error) => expected == Err::<Option<EntryModel>, BafsError>(error) || error
                    == BafsError::InputOutputError && !device.reliable(),
            }
        }),
{
    let min_key = BafsKey::new(parent_inode_number, ITEM_TYPE_DIRECTORY_ENTRY, 0);
    let max_key = BafsKey::new(parent_inode_number, ITEM_TYPE_DIRECTORY_ENTRY, u64::MAX);
    let items = match tree::iterate_tree_range(
        device,
        dirty_cache,
        inode_tree_root_block,
        min_key,
        max_key,
    ) {
        Ok(items) => items,
        Err(error) => {
            return Err(error);
        },
    };
    let ghost listed = node::leaf_entries(items@);
    let ghost expected = nth_entry(listed, 0, entry_index as int);
    let mut remaining: usize = entry_index;
    let mut at: usize = 0;
    while at < items.len()
        invariant
            at <= items@.len(),
            listed == node::leaf_entries(items@),
            expected == nth_entry(listed, at as int, remaining as int),
            expected == directory_entry_at(
                store::visible_blocks(device.contents(), dirty_cache@),
                inode_tree_root_block,
                parent_inode_number,
                entry_index as int,
            ),
        decreases items@.len() - at,
    {
        assert(listed[at as int] == items@[at as int]@);
        let mut found: Vec<BafsDirEntry> = Vec::new();
        match append_entries(items[at].value.as_slice(), &mut found) {
            Err(error) => {
                return Err(error);
            },
            Ok(_) => {},
        }
        assert(entry_models(found@) =~= all_entries(items@[at as int].value@)->Ok_0);
        if remaining < found.len() {
            let entry = found.remove(remaining);
            return Ok(Some(entry));
        }
        remaining = remaining - found.len();
        at = at + 1;
    }
    Ok(None)
}

/// Whether a directory has no entries.
pub fn directory_is_empty<D: BlockDevice>(
    device: &D,
    dirty_cache: &BTreeMap<u64, Vec<u8>>,
    inode_tree_root_block: u64,
    parent_inode_number: u64,
) -> (result: Result<bool, BafsError>)
    requires
        store::cache_valid(dirty_cache@),
    ensures
        ({
            let items = directory_items(
                store::visible_blocks(device.contents(), dirty_cache@),
                inode_tree_root_block,
                parent_inode_number,
            );
            match result {
                Ok(empty) => items is Ok && empty == (items->Ok_0.len() == 0),
                Err(error) => items == Err::<Seq<LeafEntry>, BafsError>(error) || error
                    == BafsError::InputOutputError && !device.reliable(),
            }
        }),
{
    let min_key = BafsKey::new(parent_inode_number, ITEM_TYPE_DIRECTORY_ENTRY, 0);
    let max_key = BafsKey::new(parent_inode_number, ITEM_TYPE_DIRECTORY_ENTRY, u64::MAX);
    match tree::iterate_tree_range(
        device,
        dirty_cache,
        inode_tree_root_block,
        min_key,
        max_key,
    ) {
        Ok(items) => Ok(items.len() == 0),
        Err(error) => Err(error),
    }
}


/// All entries of a directory, in the order of the hashes of their names.
pub fn directory_list_all_entries<D: BlockDevice>(
    device: &D,
    dirty_cache: &BTreeMap<u64, Vec<u8>>,
    inode_tree_root_block: u64,
    parent_inode_number: u64,
) -> (result: Result<Vec<BafsDirEntry>, BafsError>)
    requires
        store::cache_valid(dirty_cache@),
    ensures
        ({
            let expected = directory_entries(
                store::visible_blocks(device.contents(), dirty_cache@),
                inode_tree_root_block,
                parent_inode_number,
            );
            match result {
                Ok(entries) => expected == Ok::<Seq<EntryModel>, BafsError>(
                    entry_models(entries@),
                ),
                Err(error) => expected == Err::<Seq<EntryModel>, BafsError>(error) || error
                    == BafsError::InputOutputError && !device.reliable(),
            }
        }),
{
    let min_key = BafsKey::new(parent_inode_number, ITEM_TYPE_DIRECTORY_ENTRY, 0);
    let max_key = BafsKey::new(parent_inode_number, ITEM_TYPE_DIRECTORY_ENTRY, u64::MAX);
    let items = match tree::iterate_tree_range(
        device,
        dirty_cache,
        inode_tree_root_block,
        min_key,
        max_key,
    ) {
        Ok(items) => items,
        Err(error) => {
            return Err(error);
        },
    };
    let ghost listed = node::leaf_entries(items@);
    let mut entries: Vec<BafsDirEntry> = Vec::new();
    let mut at: usize = 0;
    assert(entry_models(entries@) =~= Seq::empty());
    while at < items.len()
        invariant
            at <= items@.len(),
            listed == node::leaf_entries(items@),
            entries_of_items(listed, at as nat) == Ok::<Seq<EntryModel>, BafsError>(
                entry_models(entries@),
            ),
            entries_of_items(listed, listed.len()) == directory_entries(
                store::visible_blocks(device.contents(), dirty_cache@),
                inode_tree_root_block,
                parent_inode_number,
            ),
        decreases items@.len() - at,
    {
        assert(listed[at as int] == items@[at as int]@);
        match append_entries(items[at].value.as_slice(), &mut entries) {
            Err(error) => {
                proof {
                    lemma_first_listing_error(listed, (at + 1) as nat, listed.len());
                }
                return Err(error);
            },
            Ok(_) => {},
        }
        at = at + 1;
    }
    Ok(entries)
}

proof fn lemma_first_listing_error(items: Seq<LeafEntry>, count: nat, total: nat)
    requires
        entries_of_items(items, count) is Err,
        count <= total,
    ensures
        entries_of_items(items, total) == entries_of_items(items, count),
    decreases total,
{
    if count < total {
        lemma_first_listing_error(items, count, (total - 1) as nat);
    }
}

/// Why an entry cannot be created or removed, by what is recorded under its name's hash:
/// with nothing recorded, creating is refused for the name's length alone, and there is
/// nothing to remove. With a record, creating is refused where the name is in it, and
/// removing where it is not. A record that is full is reported as want of space.
pub proof fn law_entry_is_created_or_removed(value: Seq<u8>, name: Seq<char>, root: u64)
    ensures
        ({
            let length = utf8::encode_utf8(name).len();
            &&& create_entry_error(Ok(None), name) is None <==> 1 <= length <= 255
            &&& unlink_entry_error(Ok(None), name) == Some(BafsError::NotFound)
            &&& 1 <= length <= 255 && all_entries(value) is Ok ==> {
                let found = exists|i: int|
                    0 <= i < all_entries(value)->Ok_0.len() && (
                    #[trigger] all_entries(value)->Ok_0[i]).filename == name;
                &&& create_entry_error(Ok(Some(value)), name) == if found {
                    Some(BafsError::AlreadyExists)
                } else {
                    None
                }
                &&& unlink_entry_error(Ok(Some(value)), name) == if found {
                    None
                } else {
                    Some(BafsError::NotFound)
                }
            }
        }),
        entry_result(Ok(root)) == Ok::<u64, BafsError>(root),
        entry_result(Err(BafsError::InvalidArgument)) == Err::<u64, BafsError>(
            BafsError::OutOfSpace,
        ),
        entry_result(Err(BafsError::NotSupported)) == Err::<u64, BafsError>(
            BafsError::NotSupported,
        ),
{
    if all_entries(value) is Ok {
        lemma_find_in_list(value, name);
        lemma_list_present(all_entries(value)->Ok_0, name);
    }
}

/// A new entry comes behind those that its record holds already.
pub proof fn law_new_entry_comes_last(value: Seq<u8>, entry: EntryModel)
    requires
        entry_ok(entry),
    ensures
        all_entries(value_with_entry(Ok(None), entry)) == Ok::<Seq<EntryModel>, BafsError>(
            seq![entry],
        ),
        all_entries(value) is Ok ==> all_entries(value_with_entry(Ok(Some(value)), entry)) == Ok::<
            Seq<EntryModel>,
            BafsError,
        >(all_entries(value)->Ok_0.push(entry)),
{
    lemma_single_entry(entry);
    if all_entries(value) is Ok {
        lemma_append_entry(value, entry);
    }
}

/// Where an entry is removed from a record, the others stay in their order.
pub proof fn law_removed_entry_leaves_the_others(value: Seq<u8>, index: int)
    requires
        all_entries(value) is Ok,
        names_distinct(all_entries(value)->Ok_0),
        0 <= index < all_entries(value)->Ok_0.len(),
    ensures
        ({
            let entries = all_entries(value)->Ok_0;
            let shorter = without_entry(value, entries[index].filename);
            if entries.len() == 1 {
                shorter.len() == 0
            } else {
                all_entries(shorter) == Ok::<Seq<EntryModel>, BafsError>(entries.remove(index))
            }
        }),
{
    let entries = all_entries(value)->Ok_0;
    let name = entries[index].filename;
    lemma_list_present(entries, name);
    lemma_remove_entry(value, name);
    lemma_list_without_at(entries, name, index);
}

proof fn lemma_list_without_at(entries: Seq<EntryModel>, name: Seq<char>, index: int)
    requires
        0 <= index < entries.len(),
        entries[index].filename == name,
        forall|i: int| 0 <= i < index ==> (#[trigger] entries[i]).filename != name,
    ensures
        list_without(entries, name) == entries.remove(index),
    decreases entries.len(),
{
    if index == 0 {
        assert(entries.drop_first() =~= entries.remove(0));
    } else {
        let rest = entries.drop_first();
        assert forall|i: int| 0 <= i < index - 1 implies (#[trigger] rest[i]).filename != name by {
            assert(rest[i] == entries[i + 1]);
        }
        assert(entries[0].filename != name);
        lemma_list_without_at(rest, name, index - 1);
        assert(seq![entries[0]] + rest.remove(index - 1) =~= entries.remove(index));
    }
}

} // verus!
