//! The layout of a tree node in a block.
//!
//! ```text
//! offset  size  field
//!      0     4  checksum of the bytes 4..4096
//!      4     1  level (0 for a leaf)
//!      5     1  flags
//!      6     2  item count
//!      8     8  address of the node's own block
//!     16     8  generation
//!     24        items
//! ```
//!
//! An internal node's items (33 bytes each) hold a separator key, the address
//! of a child block and the child's generation. A leaf's item headers (25
//! bytes each) hold a key and the place of the value, and the values are packed
//! backward from the end of the block. All numbers are little-endian.

use vstd::prelude::*;
use vstd::slice::{slice_subrange, slice_to_vec};
use crate::bytes;
use crate::checksum;
use crate::error::BafsError;
use super::key::BafsKey;

verus! {

broadcast use crate::bytes::lemma_le_bytes_len;

/// Greatest number of items in an internal node.
pub const INTERNAL_MAX_ITEMS: usize = 90;

/// A node, as read from or to be written to a block.
#[derive(Clone, Debug)]
pub struct BafsTreeNode {
    /// The checksum found in the block.
    pub node_checksum: u32,
    /// Zero for a leaf.
    pub level: u8,
    /// Reserved.
    pub flags: u8,
    /// Number of items.
    pub item_count: u16,
    /// Address of the node's own block.
    pub self_block_address: u64,
    /// The transaction that wrote the node.
    pub generation: u64,
    /// The items of a leaf.
    pub leaf_items: Vec<BafsLeafItem>,
    /// The items of an internal node.
    pub internal_items: Vec<BafsInternalItem>,
}

/// A key and its value.
#[derive(Clone, Debug)]
pub struct BafsLeafItem {
    /// The sort key.
    pub key: BafsKey,
    /// The value.
    pub value: Vec<u8>,
}

/// A separator key and the child that holds the keys from there on.
#[derive(Clone, Copy, Debug)]
pub struct BafsInternalItem {
    /// A lower bound for the keys in the child.
    pub key: BafsKey,
    /// Address of the child's block.
    pub child_block: u64,
    /// Generation of the child.
    pub child_generation: u64,
}

/// What a leaf item stands for.
#[verifier::ext_equal]
pub struct LeafEntry {
    pub key: BafsKey,
    pub value: Seq<u8>,
}

/// What a node stands for.
#[verifier::ext_equal]
pub struct NodeModel {
    pub node_checksum: u32,
    pub level: u8,
    pub flags: u8,
    pub item_count: u16,
    pub self_block_address: u64,
    pub generation: u64,
    pub leaf_items: Seq<LeafEntry>,
    pub internal_items: Seq<BafsInternalItem>,
}

impl View for BafsLeafItem {
    type V = LeafEntry;

    open spec fn view(&self) -> LeafEntry {
        LeafEntry { key: self.key, value: self.value@ }
    }
}

/// What a list of leaf items stands for.
pub open spec fn leaf_entries(items: Seq<BafsLeafItem>) -> Seq<LeafEntry> {
    items.map_values(|item: BafsLeafItem| item@)
}

impl View for BafsTreeNode {
    type V = NodeModel;

    open spec fn view(&self) -> NodeModel {
        NodeModel {
            node_checksum: self.node_checksum,
            level: self.level,
            flags: self.flags,
            item_count: self.item_count,
            self_block_address: self.self_block_address,
            generation: self.generation,
            leaf_items: leaf_entries(self.leaf_items@),
            internal_items: self.internal_items@,
        }
    }
}

/// The encoding of a key.
pub open spec fn key_bytes(key: BafsKey) -> Seq<u8> {
    bytes::le_bytes(key.object_id as nat, 8) + seq![key.item_type] + bytes::le_bytes(
        key.offset as nat,
        8,
    )
}

/// The key that is encoded at `offset` in `source`.
pub open spec fn key_at(source: Seq<u8>, offset: int) -> BafsKey {
    BafsKey {
        object_id: bytes::field(source, offset, 8) as u64,
        item_type: source[offset + 8],
        offset: bytes::field(source, offset + 9, 8) as u64,
    }
}

/// The encoding of an internal item.
pub open spec fn internal_item_bytes(item: BafsInternalItem) -> Seq<u8> {
    key_bytes(item.key) + bytes::le_bytes(item.child_block as nat, 8) + bytes::le_bytes(
        item.child_generation as nat,
        8,
    )
}

/// The encodings of internal items, one after the other.
pub open spec fn internal_items_bytes(items: Seq<BafsInternalItem>) -> Seq<u8>
    decreases items.len(),
{
    if items.len() == 0 {
        Seq::empty()
    } else {
        internal_items_bytes(items.drop_last()) + internal_item_bytes(items.last())
    }
}

/// Total length of the values of `items`.
pub open spec fn values_len(items: Seq<LeafEntry>) -> nat
    decreases items.len(),
{
    if items.len() == 0 {
        0
    } else {
        values_len(items.drop_last()) + items.last().value.len()
    }
}

/// The values of `items`, the first item's value last.
pub open spec fn values_bytes(items: Seq<LeafEntry>) -> Seq<u8>
    decreases items.len(),
{
    if items.len() == 0 {
        Seq::empty()
    } else {
        items.last().value + values_bytes(items.drop_last())
    }
}

/// The header of a leaf item whose value stands at `data_offset`.
pub open spec fn leaf_header_bytes(item: LeafEntry, data_offset: int) -> Seq<u8> {
    key_bytes(item.key) + bytes::le_bytes(data_offset as nat, 4) + bytes::le_bytes(
        item.value.len(),
        4,
    )
}

/// The headers of leaf items whose values are packed backward from the end of
/// the block.
pub open spec fn leaf_headers_bytes(items: Seq<LeafEntry>) -> Seq<u8>
    decreases items.len(),
{
    if items.len() == 0 {
        Seq::empty()
    } else {
        leaf_headers_bytes(items.drop_last()) + leaf_header_bytes(
            items.last(),
            4096 - values_len(items),
        )
    }
}

/// The space that a leaf with these items takes.
pub open spec fn leaf_size(items: Seq<LeafEntry>) -> nat {
    24 + 25 * items.len() + values_len(items)
}

/// Whether the items of `node` fit into a block.
pub open spec fn node_fits(node: NodeModel) -> bool {
    if node.level > 0 {
        24 + 33 * node.internal_items.len() <= 4096
    } else {
        leaf_size(node.leaf_items) <= 4096
    }
}

/// The contents of a node's block from the item area on.
pub open spec fn node_items_bytes(node: NodeModel) -> Seq<u8> {
    if node.level > 0 {
        internal_items_bytes(node.internal_items) + bytes::zeros(
            (4072 - 33 * node.internal_items.len()) as nat,
        )
    } else {
        leaf_headers_bytes(node.leaf_items) + bytes::zeros(
            (4096 - leaf_size(node.leaf_items)) as nat,
        ) + values_bytes(node.leaf_items)
    }
}

/// The contents of a node's block behind the checksum.
pub open spec fn node_body_bytes(node: NodeModel) -> Seq<u8> {
    seq![node.level, node.flags] + bytes::le_bytes(node.item_count as nat, 2) + bytes::le_bytes(
        node.self_block_address as nat,
        8,
    ) + bytes::le_bytes(node.generation as nat, 8) + node_items_bytes(node)
}

/// The block that holds `node`.
#[verifier::opaque]
pub open spec fn node_block_bytes(node: NodeModel) -> Seq<u8> {
    bytes::le_bytes(checksum::crc32c(node_body_bytes(node)) as nat, 4) + node_body_bytes(node)
}

/// The transaction that wrote the node in a block.
pub open spec fn generation_of(block: Seq<u8>) -> u64 {
    bytes::field(block, 16, 8) as u64
}

pub proof fn lemma_generation_of(node: NodeModel)
    ensures
        generation_of(node_block_bytes(node)) == node.generation,
{
    reveal(node_block_bytes);
    assert(node_block_bytes(node).subrange(16, 24) =~= bytes::le_bytes(node.generation as nat, 8));
    bytes::lemma_byte_capacities();
    bytes::lemma_le_round_trip(node.generation as nat, 8);
}

/// The internal item at `index` in a node's block.
pub open spec fn internal_item_at(block: Seq<u8>, index: int) -> BafsInternalItem {
    BafsInternalItem {
        key: key_at(block, 24 + 33 * index),
        child_block: bytes::field(block, 24 + 33 * index + 17, 8) as u64,
        child_generation: bytes::field(block, 24 + 33 * index + 25, 8) as u64,
    }
}

/// Where the value of the leaf item at `index` starts.
pub open spec fn value_offset_at(block: Seq<u8>, index: int) -> nat {
    bytes::field(block, 24 + 25 * index + 17, 4)
}

/// How long the value of the leaf item at `index` is.
pub open spec fn value_size_at(block: Seq<u8>, index: int) -> nat {
    bytes::field(block, 24 + 25 * index + 21, 4)
}

/// Whether the value of the leaf item at `index` lies within the block.
pub open spec fn value_in_bounds(block: Seq<u8>, index: int) -> bool {
    value_offset_at(block, index) + value_size_at(block, index) <= 4096
}

/// The leaf item at `index` in a node's block.
pub open spec fn leaf_entry_at(block: Seq<u8>, index: int) -> LeafEntry {
    LeafEntry {
        key: key_at(block, 24 + 25 * index),
        value: block.subrange(
            value_offset_at(block, index) as int,
            (value_offset_at(block, index) + value_size_at(block, index)) as int,
        ),
    }
}

/// The node that `block`, found at `block_address`, holds.
#[verifier::opaque]
pub open spec fn node_in_block(block: Seq<u8>, block_address: u64) -> Result<NodeModel, BafsError> {
    let stored = bytes::field(block, 0, 4) as u32;
    let level = block[4];
    let count = bytes::field(block, 6, 2);
    let node = NodeModel {
        node_checksum: stored,
        level,
        flags: block[5],
        item_count: count as u16,
        self_block_address: bytes::field(block, 8, 8) as u64,
        generation: bytes::field(block, 16, 8) as u64,
        leaf_items: if level == 0 {
            Seq::new(count, |i: int| leaf_entry_at(block, i))
        } else {
            Seq::empty()
        },
        internal_items: if level > 0 {
            Seq::new(count, |i: int| internal_item_at(block, i))
        } else {
            Seq::empty()
        },
    };
    if checksum::crc32c(block.skip(4)) != stored {
        Err(BafsError::InvalidChecksum { block_address })
    } else if level > 0 && 24 + 33 * count > 4096 {
        Err(BafsError::CorruptedStructure)
    } else if level == 0 && (24 + 25 * count > 4096 || exists|i: int|
        0 <= i < count && !#[trigger] value_in_bounds(block, i)) {
        Err(BafsError::CorruptedStructure)
    } else {
        Ok(node)
    }
}

proof fn lemma_internal_items_len(items: Seq<BafsInternalItem>)
    ensures
        internal_items_bytes(items).len() == 33 * items.len(),
    decreases items.len(),
{
    if items.len() > 0 {
        lemma_internal_items_len(items.drop_last());
    }
}

proof fn lemma_internal_item_in_items(items: Seq<BafsInternalItem>, index: int)
    requires
        0 <= index < items.len(),
    ensures
        internal_items_bytes(items).len() == 33 * items.len(),
        internal_items_bytes(items).subrange(33 * index, 33 * index + 33) == internal_item_bytes(
            items[index],
        ),
    decreases items.len(),
{
    lemma_internal_items_len(items);
    lemma_internal_items_len(items.drop_last());
    let all = internal_items_bytes(items);
    if index == items.len() - 1 {
        assert(all.subrange(33 * index, 33 * index + 33) =~= internal_item_bytes(items[index]));
    } else {
        lemma_internal_item_in_items(items.drop_last(), index);
        assert(all.subrange(33 * index, 33 * index + 33) =~= internal_items_bytes(
            items.drop_last(),
        ).subrange(33 * index, 33 * index + 33));
    }
}

proof fn lemma_leaf_parts_len(items: Seq<LeafEntry>)
    ensures
        values_bytes(items).len() == values_len(items),
        leaf_headers_bytes(items).len() == 25 * items.len(),
    decreases items.len(),
{
    if items.len() > 0 {
        lemma_leaf_parts_len(items.drop_last());
    }
}

pub proof fn lemma_values_len_of_prefix(items: Seq<LeafEntry>, index: int)
    requires
        0 <= index < items.len(),
    ensures
        values_len(items.take(index + 1)) == values_len(items.take(index))
            + items[index].value.len(),
        values_len(items.take(index + 1)) <= values_len(items),
    decreases items.len(),
{
    assert(items.take(index + 1).drop_last() =~= items.take(index));
    if index == items.len() - 1 {
        assert(items.take(index + 1) =~= items);
    } else {
        lemma_values_len_of_prefix(items.drop_last(), index);
        assert(items.drop_last().take(index + 1) =~= items.take(index + 1));
    }
}

proof fn lemma_leaf_item_in_parts(items: Seq<LeafEntry>, index: int)
    requires
        0 <= index < items.len(),
    ensures
        leaf_headers_bytes(items).len() == 25 * items.len(),
        leaf_headers_bytes(items).subrange(25 * index, 25 * index + 25) == leaf_header_bytes(
            items[index],
            4096 - values_len(items.take(index + 1)),
        ),
        values_bytes(items).len() == values_len(items),
        items[index].value.len() <= values_len(items.take(index + 1)) <= values_len(items),
        values_bytes(items).subrange(
            values_len(items) - values_len(items.take(index + 1)),
            values_len(items) - values_len(items.take(index + 1)) + items[index].value.len(),
        ) == items[index].value,
    decreases items.len(),
{
    lemma_leaf_parts_len(items);
    lemma_leaf_parts_len(items.drop_last());
    lemma_values_len_of_prefix(items, index);
    let headers = leaf_headers_bytes(items);
    let values = values_bytes(items);
    let start = values_len(items) - values_len(items.take(index + 1));
    if index == items.len() - 1 {
        assert(items.take(index + 1) =~= items);
        assert(headers.subrange(25 * index, 25 * index + 25) =~= leaf_header_bytes(
            items[index],
            4096 - values_len(items.take(index + 1)),
        ));
        assert(values.subrange(start, start + items[index].value.len()) =~= items[index].value);
    } else {
        lemma_leaf_item_in_parts(items.drop_last(), index);
        assert(items.drop_last().take(index + 1) =~= items.take(index + 1));
        assert(headers.subrange(25 * index, 25 * index + 25) =~= leaf_headers_bytes(
            items.drop_last(),
        ).subrange(25 * index, 25 * index + 25));
        let inner = values_len(items.drop_last()) - values_len(items.take(index + 1));
        assert(values.subrange(start, start + items[index].value.len()) =~= values_bytes(
            items.drop_last(),
        ).subrange(inner, inner + items[index].value.len()));
    }
}

proof fn lemma_key_at(source: Seq<u8>, offset: int, key: BafsKey)
    requires
        0 <= offset,
        offset + 17 <= source.len(),
        source.subrange(offset, offset + 17) == key_bytes(key),
    ensures
        key_at(source, offset) == key,
{
    bytes::lemma_byte_capacities();
    let part = source.subrange(offset, offset + 17);
    assert(source.subrange(offset, offset + 8) =~= part.subrange(0, 8));
    assert(part.subrange(0, 8) =~= bytes::le_bytes(key.object_id as nat, 8));
    bytes::lemma_field(source, offset, 8, key.object_id as nat);
    assert(source[offset + 8] == part[8]);
    assert(source.subrange(offset + 9, offset + 17) =~= part.subrange(9, 17));
    assert(part.subrange(9, 17) =~= bytes::le_bytes(key.offset as nat, 8));
    bytes::lemma_field(source, offset + 9, 8, key.offset as nat);
}

proof fn lemma_header_round_trip(node: NodeModel)
    requires
        node_items_bytes(node).len() == 4072,
    ensures
        ({
            let block = node_block_bytes(node);
            &&& block.len() == 4096
            &&& bytes::field(block, 0, 4) == checksum::crc32c(node_body_bytes(node))
            &&& block.skip(4) == node_body_bytes(node)
            &&& block[4] == node.level
            &&& block[5] == node.flags
            &&& bytes::field(block, 6, 2) == node.item_count
            &&& bytes::field(block, 8, 8) == node.self_block_address
            &&& bytes::field(block, 16, 8) == node.generation
            &&& block.skip(24) == node_items_bytes(node)
        }),
{
    reveal(node_block_bytes);
    bytes::lemma_byte_capacities();
    let block = node_block_bytes(node);
    let body = node_body_bytes(node);
    assert(block.subrange(0, 4) =~= bytes::le_bytes(checksum::crc32c(body) as nat, 4));
    bytes::lemma_field(block, 0, 4, checksum::crc32c(body) as nat);
    assert(block.skip(4) =~= body);
    assert(block.subrange(6, 8) =~= bytes::le_bytes(node.item_count as nat, 2));
    bytes::lemma_field(block, 6, 2, node.item_count as nat);
    assert(block.subrange(8, 16) =~= bytes::le_bytes(node.self_block_address as nat, 8));
    bytes::lemma_field(block, 8, 8, node.self_block_address as nat);
    assert(block.subrange(16, 24) =~= bytes::le_bytes(node.generation as nat, 8));
    bytes::lemma_field(block, 16, 8, node.generation as nat);
    assert(block.skip(24) =~= node_items_bytes(node));
}

proof fn lemma_internal_item_at(node: NodeModel, index: int)
    requires
        node.level > 0,
        node_fits(node),
        0 <= index < node.internal_items.len(),
    ensures
        internal_item_at(node_block_bytes(node), index) == node.internal_items[index],
{
    let items = node.internal_items;
    lemma_internal_item_in_items(items, index);
    lemma_header_round_trip(node);
    bytes::lemma_byte_capacities();
    let block = node_block_bytes(node);
    let start = 24 + 33 * index;
    let part = internal_item_bytes(items[index]);
    assert(block.subrange(start, start + 33) =~= block.skip(24).subrange(
        33 * index,
        33 * index + 33,
    ));
    assert(block.skip(24).subrange(33 * index, 33 * index + 33) =~= internal_items_bytes(
        items,
    ).subrange(33 * index, 33 * index + 33));
    assert(block.subrange(start, start + 33) == part);
    assert(block.subrange(start, start + 17) =~= block.subrange(start, start + 33).subrange(0, 17));
    assert(part.subrange(0, 17) =~= key_bytes(items[index].key));
    lemma_key_at(block, start, items[index].key);
    assert(block.subrange(start + 17, start + 25) =~= block.subrange(start, start + 33).subrange(
        17,
        25,
    ));
    assert(part.subrange(17, 25) =~= bytes::le_bytes(items[index].child_block as nat, 8));
    bytes::lemma_field(block, start + 17, 8, items[index].child_block as nat);
    assert(block.subrange(start + 25, start + 33) =~= block.subrange(start, start + 33).subrange(
        25,
        33,
    ));
    assert(part.subrange(25, 33) =~= bytes::le_bytes(items[index].child_generation as nat, 8));
    bytes::lemma_field(block, start + 25, 8, items[index].child_generation as nat);
}

proof fn lemma_leaf_entry_at(node: NodeModel, index: int)
    requires
        node.level == 0,
        node_fits(node),
        0 <= index < node.leaf_items.len(),
    ensures
        value_in_bounds(node_block_bytes(node), index),
        leaf_entry_at(node_block_bytes(node), index) == node.leaf_items[index],
{
    let items = node.leaf_items;
    lemma_leaf_item_in_parts(items, index);
    lemma_header_round_trip(node);
    bytes::lemma_byte_capacities();
    let block = node_block_bytes(node);
    let start = 24 + 25 * index;
    let place = 4096 - values_len(items.take(index + 1));
    let part = leaf_header_bytes(items[index], place);
    assert(block.subrange(start, start + 25) =~= block.skip(24).subrange(
        25 * index,
        25 * index + 25,
    ));
    assert(block.skip(24).subrange(25 * index, 25 * index + 25) =~= leaf_headers_bytes(
        items,
    ).subrange(25 * index, 25 * index + 25));
    assert(block.subrange(start, start + 25) == part);
    assert(block.subrange(start, start + 17) =~= block.subrange(start, start + 25).subrange(0, 17));
    assert(part.subrange(0, 17) =~= key_bytes(items[index].key));
    lemma_key_at(block, start, items[index].key);
    assert(block.subrange(start + 17, start + 21) =~= block.subrange(start, start + 25).subrange(
        17,
        21,
    ));
    assert(part.subrange(17, 21) =~= bytes::le_bytes(place as nat, 4));
    bytes::lemma_field(block, start + 17, 4, place as nat);
    assert(block.subrange(start + 21, start + 25) =~= block.subrange(start, start + 25).subrange(
        21,
        25,
    ));
    assert(part.subrange(21, 25) =~= bytes::le_bytes(items[index].value.len(), 4));
    bytes::lemma_field(block, start + 21, 4, items[index].value.len());
    let inner = values_len(items) - values_len(items.take(index + 1));
    let tail = block.skip(24).skip(4072 - values_len(items));
    assert(tail =~= values_bytes(items));
    assert(block.subrange(place, place + items[index].value.len()) =~= tail.subrange(
        inner,
        inner + items[index].value.len(),
    ));
}

/// A node that is written to a block is read back as it was.
pub proof fn law_node_round_trip(node: NodeModel, block_address: u64)
    requires
        node_fits(node),
        node.level > 0 ==> node.item_count == node.internal_items.len() && node.leaf_items.len()
            == 0,
        node.level == 0 ==> node.item_count == node.leaf_items.len() && node.internal_items.len()
            == 0,
    ensures
        node_block_bytes(node).len() == 4096,
        node_in_block(node_block_bytes(node), block_address) == Ok::<NodeModel, BafsError>(
            (NodeModel { node_checksum: checksum::crc32c(node_body_bytes(node)), ..node }),
        ),
{
    lemma_internal_items_len(node.internal_items);
    lemma_leaf_parts_len(node.leaf_items);
    lemma_header_round_trip(node);
    reveal(node_in_block);
    let block = node_block_bytes(node);
    let expected = NodeModel { node_checksum: checksum::crc32c(node_body_bytes(node)), ..node };
    if node.level > 0 {
        assert forall|i: int| 0 <= i < node.internal_items.len() implies #[trigger] internal_item_at(
            block,
            i,
        ) == node.internal_items[i] by {
            lemma_internal_item_at(node, i);
        }
        assert(Seq::new(node.item_count as nat, |i: int| internal_item_at(block, i))
            =~= node.internal_items);
        assert(Seq::<LeafEntry>::empty() =~= node.leaf_items);
    } else {
        assert forall|i: int| 0 <= i < node.leaf_items.len() implies #[trigger] value_in_bounds(
            block,
            i,
        ) by {
            lemma_leaf_entry_at(node, i);
        }
        assert forall|i: int| 0 <= i < node.leaf_items.len() implies #[trigger] leaf_entry_at(
            block,
            i,
        ) == node.leaf_items[i] by {
            lemma_leaf_entry_at(node, i);
        }
        assert(Seq::new(node.item_count as nat, |i: int| leaf_entry_at(block, i))
            =~= node.leaf_items);
        assert(Seq::<BafsInternalItem>::empty() =~= node.internal_items);
    }
}

/// The values of a leaf that was cut take the same space as before.
pub proof fn lemma_values_len_cut(items: Seq<LeafEntry>, split: int)
    requires
        0 <= split <= items.len(),
    ensures
        values_len(items) == values_len(items.take(split)) + values_len(items.skip(split)),
    decreases items.len(),
{
    if split == items.len() {
        assert(items.take(split) =~= items);
        assert(items.skip(split) =~= Seq::empty());
    } else {
        lemma_values_len_cut(items.drop_last(), split);
        assert(items.drop_last().take(split) =~= items.take(split));
        assert(items.skip(split).drop_last() =~= items.drop_last().skip(split));
        assert(items.skip(split).last() == items.last());
    }
}

/// No value is longer than all values together.
pub proof fn lemma_value_in_values_len(items: Seq<LeafEntry>, index: int)
    requires
        0 <= index < items.len(),
    ensures
        items[index].value.len() <= values_len(items),
{
    lemma_values_len_of_prefix(items, index);
}

proof fn lemma_values_len_bound(items: Seq<LeafEntry>)
    requires
        forall|i: int| 0 <= i < items.len() ==> (#[trigger] items[i]).value.len() <= 4096,
    ensures
        values_len(items) <= 4096 * items.len(),
    decreases items.len(),
{
    if items.len() > 0 {
        assert forall|i: int| 0 <= i < items.drop_last().len() implies (#[trigger] items.drop_last()[i]).value.len()
            <= 4096 by {
            assert(items.drop_last()[i] == items[i]);
        }
        lemma_values_len_bound(items.drop_last());
    }
}

/// What holds of every node that was found in a block.
pub proof fn lemma_node_in_block(block: Seq<u8>, block_address: u64)
    requires
        block.len() == 4096,
        node_in_block(block, block_address) is Ok,
    ensures
        ({
            let node = node_in_block(block, block_address)->Ok_0;
            &&& node.level == 0 ==> node.item_count == node.leaf_items.len()
                && node.internal_items.len() == 0 && node.leaf_items.len() <= 162
            &&& node.level > 0 ==> node.item_count == node.internal_items.len()
                && node.leaf_items.len() == 0 && node.internal_items.len() <= 123
            &&& leaf_size(node.leaf_items) <= 0x10_0000
        }),
{
    reveal(node_in_block);
    let node = node_in_block(block, block_address)->Ok_0;
    bytes::lemma_byte_capacities();
    bytes::lemma_le_value_bound(block.subrange(6, 8));
    if node.level == 0 {
        assert forall|i: int| 0 <= i < node.leaf_items.len() implies (#[trigger] node.leaf_items[i]).value.len()
            <= 4096 by {
            assert(value_in_bounds(block, i));
            assert(node.leaf_items[i] == leaf_entry_at(block, i));
        }
        lemma_values_len_bound(node.leaf_items);
    }
}

fn append_key(output: &mut Vec<u8>, key: &BafsKey)
    ensures
        final(output)@ == old(output)@ + key_bytes(*key),
{
    bytes::append_le(output, key.object_id, 8);
    output.push(key.item_type);
    bytes::append_le(output, key.offset, 8);
    assert(output@ =~= old(output)@ + key_bytes(*key));
}

fn read_key(source: &[u8], offset: usize) -> (key: BafsKey)
    requires
        offset + 17 <= source@.len(),
    ensures
        key == key_at(source@, offset as int),
{
    proof {
        bytes::lemma_byte_capacities();
    }
    let _available: usize = source.len();
    let object_id: u64 = bytes::read_le(source, offset, 8);
    let item_type: u8 = source[offset + 8];
    let key_offset: u64 = bytes::read_le(source, offset + 9, 8);
    BafsKey { object_id, item_type, offset: key_offset }
}

/// The space that a leaf with these items takes, in bytes.
pub fn leaf_serialised_size(leaf_items: &Vec<BafsLeafItem>) -> (size: u64)
    requires
        leaf_size(leaf_entries(leaf_items@)) <= u64::MAX,
    ensures
        size == leaf_size(leaf_entries(leaf_items@)),
{
    let ghost entries = leaf_entries(leaf_items@);
    let mut total: u64 = 0;
    let mut index: usize = 0;
    assert(entries.take(0) =~= Seq::empty());
    while index < leaf_items.len()
        invariant
            index <= leaf_items@.len(),
            entries == leaf_entries(leaf_items@),
            leaf_size(entries) <= u64::MAX,
            total == values_len(entries.take(index as int)),
        decreases leaf_items@.len() - index,
    {
        proof {
            lemma_values_len_of_prefix(entries, index as int);
        }
        total = total + leaf_items[index].value.len() as u64;
        index = index + 1;
    }
    assert(entries.take(entries.len() as int) =~= entries);
    24 + 25 * (leaf_items.len() as u64) + total
}

/// Whether a leaf with these items would not fit into a block.
pub fn leaf_node_would_overflow(leaf_items: &Vec<BafsLeafItem>) -> (overflows: bool)
    requires
        leaf_size(leaf_entries(leaf_items@)) <= u64::MAX,
    ensures
        overflows == (leaf_size(leaf_entries(leaf_items@)) > 4096),
{
    leaf_serialised_size(leaf_items) > 4096
}

fn append_internal_items(output: &mut Vec<u8>, items: &Vec<BafsInternalItem>)
    ensures
        final(output)@ == old(output)@ + internal_items_bytes(items@),
{
    let mut index: usize = 0;
    assert(items@.take(0) =~= Seq::empty());
    assert(output@ =~= old(output)@ + internal_items_bytes(items@.take(0)));
    while index < items.len()
        invariant
            index <= items@.len(),
            output@ == old(output)@ + internal_items_bytes(items@.take(index as int)),
        decreases items@.len() - index,
    {
        let item = &items[index];
        append_key(output, &item.key);
        bytes::append_le(output, item.child_block, 8);
        bytes::append_le(output, item.child_generation, 8);
        proof {
            assert(items@.take(index + 1).drop_last() =~= items@.take(index as int));
            assert(output@ =~= old(output)@ + internal_items_bytes(items@.take(index + 1)));
        }
        index = index + 1;
    }
    assert(items@.take(items@.len() as int) =~= items@);
}

fn append_leaf_headers(output: &mut Vec<u8>, items: &Vec<BafsLeafItem>)
    requires
        leaf_size(leaf_entries(items@)) <= 4096,
    ensures
        final(output)@ == old(output)@ + leaf_headers_bytes(leaf_entries(items@)),
{
    let ghost entries = leaf_entries(items@);
    let mut index: usize = 0;
    let mut place: u64 = 4096;
    assert(entries.take(0) =~= Seq::empty());
    assert(output@ =~= old(output)@ + leaf_headers_bytes(entries.take(0)));
    while index < items.len()
        invariant
            index <= items@.len(),
            entries == leaf_entries(items@),
            leaf_size(entries) <= 4096,
            place == 4096 - values_len(entries.take(index as int)),
            output@ == old(output)@ + leaf_headers_bytes(entries.take(index as int)),
        decreases items@.len() - index,
    {
        let item = &items[index];
        proof {
            lemma_values_len_of_prefix(entries, index as int);
        }
        let size: u64 = item.value.len() as u64;
        place = place - size;
        append_key(output, &item.key);
        bytes::append_le(output, place, 4);
        bytes::append_le(output, size, 4);
        proof {
            assert(entries.take(index + 1).drop_last() =~= entries.take(index as int));
            assert(entries.take(index + 1).last() == item@);
            assert(output@ =~= old(output)@ + leaf_headers_bytes(entries.take(index + 1)));
        }
        index = index + 1;
    }
    assert(entries.take(entries.len() as int) =~= entries);
}

fn append_leaf_values(output: &mut Vec<u8>, items: &Vec<BafsLeafItem>)
    ensures
        final(output)@ == old(output)@ + values_bytes(leaf_entries(items@)),
{
    let ghost entries = leaf_entries(items@);
    let mut remaining: usize = items.len();
    assert(entries.take(entries.len() as int) =~= entries);
    while remaining > 0
        invariant
            remaining <= items@.len(),
            entries == leaf_entries(items@),
            output@ + values_bytes(entries.take(remaining as int)) == old(output)@ + values_bytes(
                entries,
            ),
        decreases remaining,
    {
        let ghost before = output@;
        remaining = remaining - 1;
        bytes::append_slice(output, items[remaining].value.as_slice());
        proof {
            assert(entries.take(remaining + 1).drop_last() =~= entries.take(remaining as int));
            assert(entries.take(remaining + 1).last() == items@[remaining as int]@);
            assert(before + values_bytes(entries.take(remaining + 1)) =~= output@ + values_bytes(
                entries.take(remaining as int),
            ));
        }
    }
    assert(output@ + values_bytes(entries.take(0)) =~= output@);
}

fn append_zeros(output: &mut Vec<u8>, count: usize)
    ensures
        final(output)@ == old(output)@ + bytes::zeros(count as nat),
{
    let padding = bytes::zeroed_buffer(count);
    bytes::append_slice(output, padding.as_slice());
}

/// The block that holds `node`.
pub fn serialise_node_to_block(node: &BafsTreeNode) -> (block: Vec<u8>)
    requires
        node_fits(node@),
    ensures
        block@ == node_block_bytes(node@),
        block@.len() == 4096,
{
    let mut body: Vec<u8> = Vec::new();
    body.push(node.level);
    body.push(node.flags);
    bytes::append_le(&mut body, node.item_count as u64, 2);
    bytes::append_le(&mut body, node.self_block_address, 8);
    bytes::append_le(&mut body, node.generation, 8);
    let ghost header = body@;
    if node.level > 0 {
        append_internal_items(&mut body, &node.internal_items);
        append_zeros(&mut body, 4072 - 33 * node.internal_items.len());
    } else {
        append_leaf_headers(&mut body, &node.leaf_items);
        let used: u64 = leaf_serialised_size(&node.leaf_items);
        append_zeros(&mut body, (4096 - used) as usize);
        append_leaf_values(&mut body, &node.leaf_items);
    }
    proof {
        reveal(node_block_bytes);
        assert(body@ =~= header + node_items_bytes(node@));
        assert(body@ =~= node_body_bytes(node@));
        lemma_internal_items_len(node@.internal_items);
        lemma_leaf_parts_len(node@.leaf_items);
    }
    let checksum: u32 = checksum::compute_crc32c(body.as_slice());
    let mut block: Vec<u8> = Vec::new();
    bytes::append_le(&mut block, checksum as u64, 4);
    bytes::append_slice(&mut block, body.as_slice());
    assert(block@ =~= node_block_bytes(node@));
    block
}

fn read_internal_items(block_data: &[u8], item_count: usize) -> (items: Vec<BafsInternalItem>)
    requires
        block_data@.len() == 4096,
        24 + 33 * item_count <= 4096,
    ensures
        items@ == Seq::new(item_count as nat, |i: int| internal_item_at(block_data@, i)),
{
    let mut items: Vec<BafsInternalItem> = Vec::new();
    let mut index: usize = 0;
    while index < item_count
        invariant
            index <= item_count,
            block_data@.len() == 4096,
            24 + 33 * item_count <= 4096,
            items@.len() == index,
            forall|i: int| 0 <= i < index ==> items@[i] == internal_item_at(block_data@, i),
        decreases item_count - index,
    {
        proof {
            bytes::lemma_byte_capacities();
        }
        let start: usize = 24 + 33 * index;
        let key = read_key(block_data, start);
        let child_block: u64 = bytes::read_le(block_data, start + 17, 8);
        let child_generation: u64 = bytes::read_le(block_data, start + 25, 8);
        items.push(BafsInternalItem { key, child_block, child_generation });
        index = index + 1;
    }
    assert(items@ =~= Seq::new(item_count as nat, |i: int| internal_item_at(block_data@, i)));
    items
}

fn read_leaf_items(block_data: &[u8], item_count: usize) -> (result: Option<Vec<BafsLeafItem>>)
    requires
        block_data@.len() == 4096,
        24 + 25 * item_count <= 4096,
    ensures
        result is None <==> exists|i: int|
            0 <= i < item_count && !#[trigger] value_in_bounds(block_data@, i),
        result matches Some(items) ==> leaf_entries(items@) == Seq::new(
            item_count as nat,
            |i: int| leaf_entry_at(block_data@, i),
        ),
{
    let mut items: Vec<BafsLeafItem> = Vec::new();
    let mut index: usize = 0;
    while index < item_count
        invariant
            index <= item_count,
            block_data@.len() == 4096,
            24 + 25 * item_count <= 4096,
            items@.len() == index,
            forall|i: int| 0 <= i < index ==> #[trigger] value_in_bounds(block_data@, i),
            forall|i: int| 0 <= i < index ==> #[trigger] items@[i]@ == leaf_entry_at(block_data@, i),
        decreases item_count - index,
    {
        proof {
            bytes::lemma_byte_capacities();
        }
        let start: usize = 24 + 25 * index;
        let key = read_key(block_data, start);
        let data_offset: u64 = bytes::read_le(block_data, start + 17, 4);
        let data_size: u64 = bytes::read_le(block_data, start + 21, 4);
        if data_offset + data_size > 4096 {
            assert(!value_in_bounds(block_data@, index as int));
            return None;
        }
        assert(value_in_bounds(block_data@, index as int));
        let value: Vec<u8> = slice_to_vec(
            slice_subrange(block_data, data_offset as usize, (data_offset + data_size) as usize),
        );
        items.push(BafsLeafItem { key, value });
        assert(items@[index as int]@ =~= leaf_entry_at(block_data@, index as int));
        index = index + 1;
    }
    assert(leaf_entries(items@) =~= Seq::new(
        item_count as nat,
        |i: int| leaf_entry_at(block_data@, i),
    ));
    Some(items)
}

/// The node that a block holds. Fails with `InvalidChecksum` where the checksum
/// does not match, and with `CorruptedStructure` where the items do not lie
/// within the block.
pub fn deserialise_node_from_block(block_data: &[u8], block_address: u64) -> (result: Result<
    BafsTreeNode,
    BafsError,
>)
    requires
        block_data@.len() == 4096,
    ensures
        match result {
            Ok(node) => node_in_block(block_data@, block_address) == Ok::<NodeModel, BafsError>(
                node@,
            ),
            Err(error) => node_in_block(block_data@, block_address) == Err::<
                NodeModel,
                BafsError,
            >(error),
        },
{
    proof {
        bytes::lemma_byte_capacities();
        reveal(node_in_block);
    }
    let stored_checksum: u32 = bytes::read_le(block_data, 0, 4) as u32;
    let body = slice_subrange(block_data, 4, 4096);
    assert(body@ =~= block_data@.skip(4));
    if !checksum::verify_crc32c(body, stored_checksum) {
        return Err(BafsError::InvalidChecksum { block_address });
    }
    let level: u8 = block_data[4];
    let flags: u8 = block_data[5];
    let item_count: usize = bytes::read_le(block_data, 6, 2) as usize;
    let self_block_address: u64 = bytes::read_le(block_data, 8, 8);
    let generation: u64 = bytes::read_le(block_data, 16, 8);
    let mut leaf_items: Vec<BafsLeafItem> = Vec::new();
    let mut internal_items: Vec<BafsInternalItem> = Vec::new();
    if level > 0 {
        if 24 + 33 * item_count > 4096 {
            return Err(BafsError::CorruptedStructure);
        }
        internal_items = read_internal_items(block_data, item_count);
    } else {
        if 24 + 25 * item_count > 4096 {
            return Err(BafsError::CorruptedStructure);
        }
        match read_leaf_items(block_data, item_count) {
            None => {
                return Err(BafsError::CorruptedStructure);
            },
            Some(items) => {
                leaf_items = items;
            },
        }
    }
    let node = BafsTreeNode {
        node_checksum: stored_checksum,
        level,
        flags,
        item_count: item_count as u16,
        self_block_address,
        generation,
        leaf_items,
        internal_items,
    };
    assert(level > 0 ==> node@.leaf_items =~= Seq::empty());
    assert(node_in_block(block_data@, block_address)->Ok_0 =~= node@);
    Ok(node)
}

/// A node block with a single damaged byte is told apart from an intact one.
pub proof fn law_damaged_node_is_detected(
    block: Seq<u8>,
    damaged: Seq<u8>,
    position: int,
    block_address: u64,
)
    requires
        block.len() == 4096,
        damaged.len() == 4096,
        node_in_block(block, block_address) is Ok,
        0 <= position < 4096,
        damaged[position] != block[position],
        forall|i: int| 0 <= i < 4096 && i != position ==> damaged[i] == block[i],
    ensures
        node_in_block(damaged, block_address) == Err::<NodeModel, BafsError>(
            BafsError::InvalidChecksum { block_address },
        ),
{
    reveal(node_in_block);
    bytes::lemma_byte_capacities();
    let stored = block.subrange(0, 4);
    let found = damaged.subrange(0, 4);
    bytes::lemma_le_value_bound(stored);
    bytes::lemma_le_value_bound(found);
    if position < 4 {
        assert(damaged.skip(4) =~= block.skip(4));
        assert(found[position] != stored[position]);
        bytes::lemma_le_bytes_of_value(stored);
        bytes::lemma_le_bytes_of_value(found);
    } else {
        assert(found =~= stored);
        checksum::law_single_byte_change_is_detected(block.skip(4), damaged.skip(4), position - 4);
    }
}

} // verus!
