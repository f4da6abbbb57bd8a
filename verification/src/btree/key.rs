//! The sort key of tree items.

use vstd::prelude::*;

verus! {

/// Item type of inode records.
pub const ITEM_TYPE_INODE: u8 = 0x01;

/// Item type of directory entries.
pub const ITEM_TYPE_DIRECTORY_ENTRY: u8 = 0x02;

/// Item type of file extents.
pub const ITEM_TYPE_EXTENT_DATA: u8 = 0x03;

/// Item type of data block checksums.
pub const ITEM_TYPE_CHECKSUM_ENTRY: u8 = 0x05;

/// The three-part sort key of every tree.
///
/// Keys are ordered by `object_id`, then `item_type`, then `offset`, so that
/// all items of one object form a contiguous range.
#[derive(Clone, Copy, PartialEq, Eq, PartialOrd, Ord, Debug, Structural)]
pub struct BafsKey {
    /// The owner: an inode number, or a reserved value.
    pub object_id: u64,
    /// The kind of item.
    pub item_type: u8,
    /// The position among the items of one kind: zero for inodes, a name's
    /// hash for directory entries, a byte offset for extents, and a block
    /// address for checksums and free extents.
    pub offset: u64,
}

/// One more than the rank of the greatest key.
pub open spec fn rank_limit() -> int {
    0x1_0000_0000_0000_0000int * 0x100 * 0x1_0000_0000_0000_0000
}

impl BafsKey {
    /// The key with the given parts.
    pub fn new(object_id: u64, item_type: u8, offset: u64) -> (key: BafsKey)
        ensures
            key == (BafsKey { object_id, item_type, offset }),
    {
        BafsKey { object_id, item_type, offset }
    }

    /// The position of this key in the order of all keys.
    #[verifier::opaque]
    pub open spec fn rank(self) -> int {
        (self.object_id * 0x100 + self.item_type) * 0x1_0000_0000_0000_0000 + self.offset
    }

    /// Whether this key comes before `other`.
    pub fn precedes(&self, other: &BafsKey) -> (result: bool)
        ensures
            result == (self.rank() < other.rank()),
    {
        proof {
            reveal(BafsKey::rank);
        }
        if self.object_id != other.object_id {
            return self.object_id < other.object_id;
        }
        if self.item_type != other.item_type {
            return self.item_type < other.item_type;
        }
        self.offset < other.offset
    }

    /// Whether this key equals `other`.
    pub fn same(&self, other: &BafsKey) -> (result: bool)
        ensures
            result == (*self == *other),
            result == (self.rank() == other.rank()),
    {
        proof {
            lemma_rank_injective(*self, *other);
        }
        self.object_id == other.object_id && self.item_type == other.item_type && self.offset
            == other.offset
    }
}

pub broadcast proof fn lemma_rank_bounds(key: BafsKey)
    ensures
        0 <= #[trigger] key.rank() < rank_limit(),
{
    reveal(BafsKey::rank);
}

/// Different keys have different ranks.
pub proof fn lemma_rank_injective(left: BafsKey, right: BafsKey)
    ensures
        left.rank() == right.rank() <==> left == right,
{
    reveal(BafsKey::rank);
}

/// The order of keys is lexicographic.
pub proof fn law_keys_are_ordered_lexicographically(left: BafsKey, right: BafsKey)
    ensures
        left.rank() < right.rank() <==> {
            ||| left.object_id < right.object_id
            ||| left.object_id == right.object_id && left.item_type < right.item_type
            ||| left.object_id == right.object_id && left.item_type == right.item_type
                && left.offset < right.offset
        },
{
    reveal(BafsKey::rank);
}

} // verus!
