//! What a listing of a directory gives: its entries, every one once.

use vstd::prelude::*;
use vstd::utf8;
use crate::btree::key;
use crate::btree::key::{BafsKey, ITEM_TYPE_DIRECTORY_ENTRY};
use crate::btree::model;
use crate::btree::node::LeafEntry;
use crate::dir;
use crate::dir::EntryModel;
use crate::error::BafsError;
use crate::hash;
use crate::state;
use crate::state::VolumeState;
use super::VolumeModel;

verus! {

/// The entry at `index` of a directory, counted from zero.
pub open spec fn entry_at(volume: VolumeModel, directory: u64, index: int) -> Result<
    Option<EntryModel>,
    BafsError,
> {
    dir::directory_entry_at(
        volume.blocks(),
        volume.superblock.inode_tree_root_block,
        directory,
        index,
    )
}

/// The items hold the names of a directory: each one those with its hash.
spec fn holds_names(contents: VolumeState, directory: u64, items: Seq<LeafEntry>) -> bool {
    &&& forall|i: int|
        0 <= i < items.len() ==> {
            let item = #[trigger] items[i];
            &&& item.key.object_id == directory
            &&& item.key.item_type == ITEM_TYPE_DIRECTORY_ENTRY
            &&& contents.inodes.contains_key(item.key)
            &&& contents.inodes[item.key] == item.value
            &&& state::directory_record_ok(item.key.offset, item.value)
        }
    &&& forall|i: int, j: int|
        0 <= i < j < items.len() ==> (#[trigger] items[i]).key.offset < (#[trigger] items[j]).key.offset
    &&& forall|key: BafsKey| #[trigger]
        contents.inodes.contains_key(key) && key.object_id == directory && key.item_type
            == ITEM_TYPE_DIRECTORY_ENTRY ==> exists|i: int|
            0 <= i < items.len() && (#[trigger] items[i]).key == key
}

/// A scan finds all names of a directory.
proof fn lemma_scan_finds_names(volume: VolumeModel, directory: u64)
    requires
        volume.in_order(),
    ensures
        ({
            let found = dir::directory_items(
                volume.blocks(),
                volume.superblock.inode_tree_root_block,
                directory,
            );
            &&& found is Ok
            &&& holds_names(volume.state(), directory, found->Ok_0)
        }),
{
    let contents = volume.state();
    let root = volume.superblock.inode_tree_root_block;
    let low = BafsKey { object_id: directory, item_type: ITEM_TYPE_DIRECTORY_ENTRY, offset: 0 };
    let high = BafsKey {
        object_id: directory,
        item_type: ITEM_TYPE_DIRECTORY_ENTRY,
        offset: u64::MAX,
    };
    model::lemma_range_matches_map(volume.blocks(), root, low, high);
    let items = model::tree_range(volume.blocks(), root, low, high)->Ok_0;
    assert forall|i: int| 0 <= i < items.len() implies {
        let item = #[trigger] items[i];
        &&& item.key.object_id == directory
        &&& item.key.item_type == ITEM_TYPE_DIRECTORY_ENTRY
        &&& contents.inodes.contains_key(item.key)
        &&& contents.inodes[item.key] == item.value
        &&& state::directory_record_ok(item.key.offset, item.value)
    } by {
        let key = items[i].key;
        assert(contents.inodes.contains_key(key));
        key::law_keys_are_ordered_lexicographically(key, low);
        key::law_keys_are_ordered_lexicographically(high, key);
        assert(contents.record_ok(key, contents.inodes[key]));
    }
    let ranks = model::leaf_ranks(items);
    assert forall|i: int, j: int| 0 <= i < j < items.len() implies (#[trigger] items[i]).key.offset < (
    #[trigger] items[j]).key.offset by {
        assert(ranks[i] < ranks[j]);
        key::law_keys_are_ordered_lexicographically(items[i].key, items[j].key);
    }
    assert forall|key: BafsKey| #[trigger]
        contents.inodes.contains_key(key) && key.object_id == directory && key.item_type
            == ITEM_TYPE_DIRECTORY_ENTRY implies exists|i: int|
        0 <= i < items.len() && (#[trigger] items[i]).key == key by {
        key::law_keys_are_ordered_lexicographically(key, low);
        key::law_keys_are_ordered_lexicographically(high, key);
    }
}

/// The entries in the first `count` items.
spec fn listed(items: Seq<LeafEntry>, count: nat) -> Seq<EntryModel> {
    dir::entries_of_items(items, count)->Ok_0
}

/// The entries in an item.
spec fn entries_in(item: LeafEntry) -> Seq<EntryModel> {
    dir::all_entries(item.value)->Ok_0
}

/// Where the entries of an item begin in a listing.
proof fn lemma_listed_grows(
    contents: VolumeState,
    directory: u64,
    items: Seq<LeafEntry>,
    count: nat,
)
    requires
        holds_names(contents, directory, items),
        count <= items.len(),
    ensures
        dir::entries_of_items(items, count) is Ok,
        count > 0 ==> listed(items, count) == listed(items, (count - 1) as nat) + entries_in(
            items[count - 1],
        ),
    decreases count,
{
    if count > 0 {
        lemma_listed_grows(contents, directory, items, (count - 1) as nat);
        assert(state::directory_record_ok(items[count - 1].key.offset, items[count - 1].value));
    }
}

/// Fewer items list the first entries.
proof fn lemma_listed_is_prefix(
    contents: VolumeState,
    directory: u64,
    items: Seq<LeafEntry>,
    count: nat,
    total: nat,
)
    requires
        holds_names(contents, directory, items),
        count <= total <= items.len(),
    ensures
        listed(items, count).len() <= listed(items, total).len(),
        forall|i: int|
            0 <= i < listed(items, count).len() ==> #[trigger] listed(items, total)[i] == listed(
                items,
                count,
            )[i],
    decreases total,
{
    if count < total {
        lemma_listed_is_prefix(contents, directory, items, count, (total - 1) as nat);
        lemma_listed_grows(contents, directory, items, total);
    }
}

/// Counting through the items gives the entries of the listing.
proof fn lemma_nth_is_listed(
    contents: VolumeState,
    directory: u64,
    items: Seq<LeafEntry>,
    at: nat,
    index: int,
)
    requires
        holds_names(contents, directory, items),
        at <= items.len(),
        0 <= index,
    ensures
        ({
            let all = listed(items, items.len());
            let position = listed(items, at).len() + index;
            dir::nth_entry(items, at as int, index) == Ok::<Option<EntryModel>, BafsError>(
                if position < all.len() {
                    Some(all[position])
                } else {
                    None
                },
            )
        }),
    decreases items.len() - at,
{
    if at < items.len() {
        let found = entries_in(items[at as int]);
        assert(state::directory_record_ok(items[at as int].key.offset, items[at as int].value));
        lemma_listed_grows(contents, directory, items, at + 1);
        lemma_listed_is_prefix(contents, directory, items, at + 1, items.len());
        if index < found.len() {
            let position = listed(items, at).len() + index;
            assert(listed(items, at + 1)[position] == found[index]);
            assert(listed(items, items.len())[position] == listed(items, at + 1)[position]);
        } else {
            lemma_nth_is_listed(contents, directory, items, at + 1, index - found.len());
        }
    }
}

/// The hash of the name of an entry.
pub open spec fn name_hash(entry: EntryModel) -> u64 {
    hash::xxhash64(utf8::encode_utf8(entry.filename))
}

/// What stands in a listing.
proof fn lemma_listed_names(
    contents: VolumeState,
    directory: u64,
    items: Seq<LeafEntry>,
    count: nat,
)
    requires
        holds_names(contents, directory, items),
        count <= items.len(),
    ensures
        forall|j: int|
            0 <= j < listed(items, count).len() ==> {
                let entry = #[trigger] listed(items, count)[j];
                &&& state::entry_of(contents, directory, entry.filename) == Some(entry)
                &&& count > 0 && hash::xxhash64(utf8::encode_utf8(entry.filename))
                    <= items[count - 1].key.offset
            },
        dir::names_distinct(listed(items, count)),
        forall|i: int, j: int|
            0 <= i < j < listed(items, count).len() ==> name_hash(
                #[trigger] listed(items, count)[i],
            ) <= name_hash(#[trigger] listed(items, count)[j]),
        forall|i: int, m: int|
            0 <= i < count && 0 <= m < entries_in(items[i]).len() ==> listed(
                items,
                count,
            ).contains(#[trigger] entries_in(items[i])[m]),
    decreases count,
{
    if count > 0 {
        let last = (count - 1) as nat;
        let item = items[last as int];
        let earlier = listed(items, last);
        let found = entries_in(item);
        let all = listed(items, count);
        lemma_listed_grows(contents, directory, items, count);
        lemma_listed_names(contents, directory, items, last);
        assert(state::directory_record_ok(item.key.offset, item.value));
        if last > 0 {
            assert(items[last - 1].key.offset < item.key.offset);
        }
        assert forall|j: int| 0 <= j < all.len() implies {
            let entry = #[trigger] all[j];
            &&& state::entry_of(contents, directory, entry.filename) == Some(entry)
            &&& hash::xxhash64(utf8::encode_utf8(entry.filename)) <= item.key.offset
            &&& j < earlier.len() ==> hash::xxhash64(utf8::encode_utf8(entry.filename))
                < item.key.offset
            &&& j >= earlier.len() ==> hash::xxhash64(utf8::encode_utf8(entry.filename))
                == item.key.offset
        } by {
            if j < earlier.len() {
                assert(all[j] == earlier[j]);
            } else {
                let entry = found[j - earlier.len()];
                assert(all[j] == entry);
                assert(dir::entry_key(directory, entry.filename) == item.key);
                dir::lemma_list_present(found, entry.filename);
                match dir::list_find(found, entry.filename) {
                    Some(other) => {
                        let k = choose|k: int| 0 <= k < found.len() && found[k] == other;
                        assert(found[k].filename == found[j - earlier.len()].filename);
                        assert(k == j - earlier.len());
                    },
                    None => {},
                }
            }
        }
        assert forall|i: int, j: int| 0 <= i < j < all.len() implies (#[trigger] all[i]).filename
            != (#[trigger] all[j]).filename && name_hash(all[i]) <= name_hash(all[j]) by {
            if j < earlier.len() {
                assert(all[i] == earlier[i] && all[j] == earlier[j]);
            } else if i >= earlier.len() {
                assert(all[i] == found[i - earlier.len()] && all[j] == found[j - earlier.len()]);
            }
        }
        assert forall|i: int, m: int|
            0 <= i < count && 0 <= m < entries_in(items[i]).len() implies all.contains(
            #[trigger] entries_in(items[i])[m],
        ) by {
            let entry = entries_in(items[i])[m];
            if i == last {
                assert(all[earlier.len() + m] == entry);
            } else {
                assert(earlier.contains(entry));
                let k = choose|k: int| 0 <= k < earlier.len() && earlier[k] == entry;
                assert(all[k] == entry);
            }
        }
    }
}

/// A listing by index gives exactly the entries of a directory: every index below
/// their number gives an entry that a lookup of its name finds, and no two indices
/// give the same name; every name that a lookup finds is at one of them; and from
/// their number on there is nothing. The hashes of the names do not go down. Listing
/// all entries at once gives the same.
pub proof fn law_listing_is_exact(volume: VolumeModel, directory: u64) -> (count: nat)
    requires
        volume.in_order(),
    ensures
        forall|index: int|
            0 <= index < count ==> ((#[trigger] entry_at(volume, directory, index)) matches Ok(
                Some(entry),
            ) && state::entry_of(volume.state(), directory, entry.filename) == Some(entry)),
        forall|index: int|
            index >= count ==> #[trigger] entry_at(volume, directory, index) == Ok::<
                Option<EntryModel>,
                BafsError,
            >(None),
        forall|left: int, right: int|
            0 <= left < right < count ==> (#[trigger] entry_at(
                volume,
                directory,
                left,
            ))->Ok_0->Some_0.filename != (#[trigger] entry_at(
                volume,
                directory,
                right,
            ))->Ok_0->Some_0.filename,
        forall|left: int, right: int|
            0 <= left < right < count ==> name_hash(
                (#[trigger] entry_at(volume, directory, left))->Ok_0->Some_0,
            ) <= name_hash((#[trigger] entry_at(volume, directory, right))->Ok_0->Some_0),
        forall|name: Seq<char>| #[trigger]
            state::entry_of(volume.state(), directory, name) is Some ==> exists|index: int|
                0 <= index < count && #[trigger] entry_at(volume, directory, index) == Ok::<
                    Option<EntryModel>,
                    BafsError,
                >(state::entry_of(volume.state(), directory, name)),
        ({
            let all = dir::directory_entries(
                volume.blocks(),
                volume.superblock.inode_tree_root_block,
                directory,
            );
            &&& all is Ok
            &&& all->Ok_0.len() == count
            &&& forall|index: int|
                0 <= index < count ==> #[trigger] entry_at(volume, directory, index) == Ok::<
                    Option<EntryModel>,
                    BafsError,
                >(Some(all->Ok_0[index]))
        }),
        ({
            let items = dir::directory_items(
                volume.blocks(),
                volume.superblock.inode_tree_root_block,
                directory,
            );
            &&& items is Ok
            &&& (items->Ok_0.len() == 0) == (count == 0)
        }),
{
    let contents = volume.state();
    let root = volume.superblock.inode_tree_root_block;
    lemma_scan_finds_names(volume, directory);
    let items = dir::directory_items(volume.blocks(), root, directory)->Ok_0;
    let all = listed(items, items.len());
    lemma_listed_grows(contents, directory, items, items.len());
    lemma_listed_names(contents, directory, items, items.len());
    assert forall|index: int| 0 <= index implies #[trigger] entry_at(volume, directory, index)
        == Ok::<Option<EntryModel>, BafsError>(
        if index < all.len() {
            Some(all[index])
        } else {
            None
        },
    ) by {
        lemma_nth_is_listed(contents, directory, items, 0, index);
    }
    assert forall|name: Seq<char>| #[trigger]
        state::entry_of(contents, directory, name) is Some implies exists|index: int|
        0 <= index < all.len() && #[trigger] entry_at(volume, directory, index) == Ok::<
            Option<EntryModel>,
            BafsError,
        >(state::entry_of(contents, directory, name)) by {
        let key = dir::entry_key(directory, name);
        let i = choose|i: int| 0 <= i < items.len() && (#[trigger] items[i]).key == key;
        let found = entries_in(items[i]);
        let entry = state::entry_of(contents, directory, name)->Some_0;
        dir::lemma_list_present(found, name);
        let m = choose|m: int| 0 <= m < found.len() && found[m] == entry;
        assert(all.contains(entries_in(items[i])[m]));
        let k = choose|k: int| 0 <= k < all.len() && all[k] == entry;
        assert(entry_at(volume, directory, k) == Ok::<Option<EntryModel>, BafsError>(
            Some(all[k]),
        ));
    }
    assert forall|left: int, right: int| 0 <= left < right < all.len() implies (#[trigger] entry_at(
        volume,
        directory,
        left,
    ))->Ok_0->Some_0.filename != (#[trigger] entry_at(
        volume,
        directory,
        right,
    ))->Ok_0->Some_0.filename by {
        assert(all[left].filename != all[right].filename);
    }
    if items.len() > 0 {
        assert(state::directory_record_ok(items[0].key.offset, items[0].value));
        dir::lemma_find_in_list(items[0].value, Seq::empty());
        assert(all.contains(entries_in(items[0])[0]));
    }
    all.len()
}

} // verus!
