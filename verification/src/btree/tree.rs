//! Lookup, range scan, insertion and deletion.
//!
//! Every change is copy-on-write: the nodes on the way to the changed leaf are
//! written to new blocks, and the old ones stay as they are.

use std::collections::BTreeMap;
use vstd::prelude::*;
use vstd::slice::slice_to_vec;
use crate::block_device::BlockDevice;
use crate::error::BafsError;
use super::fanout;
use super::growth;
use super::key;
use super::key::BafsKey;
use super::model;
use super::model::Span;
use super::node;
use super::node::{BafsInternalItem, BafsLeafItem, BafsTreeNode, LeafEntry, NodeModel};
use super::store;

verus! {

broadcast use {super::key::lemma_rank_bounds, super::store::lemma_stamped_none};

/// What may stand in a subtree: keys from `lower` on and before `upper`, in
/// nodes of a level below `levels`.
#[derive(Clone, Copy, Debug)]
pub struct SubtreeBounds {
    pub lower: BafsKey,
    pub upper: Option<BafsKey>,
    pub levels: u8,
}

impl SubtreeBounds {
    /// The same bounds over ranks.
    pub open spec fn span(self) -> Span {
        Span {
            lower: self.lower.rank(),
            upper: match self.upper {
                Some(upper) => upper.rank(),
                None => key::rank_limit(),
            },
            levels: self.levels as nat,
        }
    }

    fn whole_tree() -> (bounds: SubtreeBounds)
        ensures
            bounds.span() == model::root_span(),
    {
        proof {
            reveal(BafsKey::rank);
        }
        SubtreeBounds { lower: BafsKey::new(0, 0, 0), upper: None, levels: 255 }
    }

    fn child(&self, items: &Vec<BafsInternalItem>, index: usize, level: u8) -> (bounds: SubtreeBounds)
        requires
            index < items@.len(),
        ensures
            bounds.span() == model::child_span(
                items@,
                index as int,
                self.span().upper,
                level as nat,
            ),
            bounds.lower == items@[index as int].key,
    {
        let upper = if index < items.len() - 1 {
            Some(items[index + 1].key)
        } else {
            self.upper
        };
        SubtreeBounds { lower: items[index].key, upper, levels: level }
    }

    fn admits(&self, candidate: &BafsKey) -> (result: bool)
        ensures
            result == (self.span().lower <= candidate.rank() < self.span().upper),
    {
        if candidate.precedes(&self.lower) {
            return false;
        }
        match &self.upper {
            Some(upper) => candidate.precedes(upper),
            None => true,
        }
    }
}

fn leaf_items_are_valid(items: &Vec<BafsLeafItem>, bounds: &SubtreeBounds) -> (valid: bool)
    requires
        node::leaf_size(node::leaf_entries(items@)) <= u64::MAX,
    ensures
        valid == {
            let entries = node::leaf_entries(items@);
            &&& model::sorted(model::leaf_ranks(entries))
            &&& model::within(
                model::leaf_ranks(entries),
                bounds.span().lower,
                bounds.span().upper,
            )
            &&& node::leaf_size(entries) <= 4096
        },
{
    let ghost ranks = model::leaf_ranks(node::leaf_entries(items@));
    if node::leaf_node_would_overflow(items) {
        return false;
    }
    let mut index: usize = 0;
    while index < items.len()
        invariant
            index <= items@.len(),
            ranks == model::leaf_ranks(node::leaf_entries(items@)),
            model::sorted(ranks.take(index as int)),
            model::within(ranks.take(index as int), bounds.span().lower, bounds.span().upper),
        decreases items@.len() - index,
    {
        assert(ranks[index as int] == items@[index as int].key.rank());
        if !bounds.admits(&items[index].key) {
            return false;
        }
        if index > 0 {
            assert(ranks[index - 1] == items@[index - 1].key.rank());
            if !items[index - 1].key.precedes(&items[index].key) {
                return false;
            }
        }
        proof {
            let longer = ranks.take(index + 1);
            assert forall|i: int, j: int| 0 <= i < j < longer.len() implies longer[i]
                < longer[j] by {
                if j == index && i < index - 1 {
                    assert(ranks.take(index as int)[i] < ranks.take(index as int)[index - 1]);
                } else if j < index {
                    assert(ranks.take(index as int)[i] < ranks.take(index as int)[j]);
                }
            }
            assert forall|i: int| 0 <= i < longer.len() implies bounds.span().lower
                <= #[trigger] longer[i] < bounds.span().upper by {
                if i < index {
                    assert(longer[i] == ranks.take(index as int)[i]);
                }
            }
        }
        index = index + 1;
    }
    assert(ranks.take(ranks.len() as int) =~= ranks);
    true
}

fn internal_items_are_valid(items: &Vec<BafsInternalItem>, bounds: &SubtreeBounds) -> (valid: bool)
    ensures
        valid == {
            &&& items@.len() > 0
            &&& model::sorted(model::separator_ranks(items@))
            &&& model::within(
                model::separator_ranks(items@),
                bounds.span().lower,
                bounds.span().upper,
            )
        },
{
    let ghost ranks = model::separator_ranks(items@);
    if items.len() == 0 {
        return false;
    }
    let mut index: usize = 0;
    while index < items.len()
        invariant
            index <= items@.len(),
            ranks == model::separator_ranks(items@),
            model::sorted(ranks.take(index as int)),
            model::within(ranks.take(index as int), bounds.span().lower, bounds.span().upper),
        decreases items@.len() - index,
    {
        assert(ranks[index as int] == items@[index as int].key.rank());
        if !bounds.admits(&items[index].key) {
            return false;
        }
        if index > 0 {
            assert(ranks[index - 1] == items@[index - 1].key.rank());
            if !items[index - 1].key.precedes(&items[index].key) {
                return false;
            }
        }
        proof {
            let longer = ranks.take(index + 1);
            assert forall|i: int, j: int| 0 <= i < j < longer.len() implies longer[i]
                < longer[j] by {
                if j == index && i < index - 1 {
                    assert(ranks.take(index as int)[i] < ranks.take(index as int)[index - 1]);
                } else if j < index {
                    assert(ranks.take(index as int)[i] < ranks.take(index as int)[j]);
                }
            }
            assert forall|i: int| 0 <= i < longer.len() implies bounds.span().lower
                <= #[trigger] longer[i] < bounds.span().upper by {
                if i < index {
                    assert(longer[i] == ranks.take(index as int)[i]);
                }
            }
        }
        index = index + 1;
    }
    assert(ranks.take(ranks.len() as int) =~= ranks);
    true
}

/// The number of items agrees with the item count in the header.
pub open spec fn counts_agree(node: NodeModel) -> bool {
    &&& node.level == 0 ==> node.item_count == node.leaf_items.len() && node.internal_items.len()
        == 0 && node.leaf_items.len() <= 162
    &&& node.level > 0 ==> node.item_count == node.internal_items.len() && node.leaf_items.len()
        == 0 && node.internal_items.len() <= 123
}

/// Read the node at the top of a subtree, and check that it may stand there.
fn read_checked_node<D: BlockDevice>(
    device: &D,
    dirty_cache: &BTreeMap<u64, Vec<u8>>,
    block_address: u64,
    bounds: &SubtreeBounds,
) -> (result: Result<BafsTreeNode, BafsError>)
    requires
        store::cache_valid(dirty_cache@),
    ensures
        match result {
            Ok(node) => {
                &&& model::checked_node(
                    store::visible_blocks(device.contents(), dirty_cache@),
                    block_address,
                    bounds.span(),
                ) == Ok::<NodeModel, BafsError>(node@)
                &&& counts_agree(node@)
            },
            Err(error) => {
                ||| model::checked_node(
                    store::visible_blocks(device.contents(), dirty_cache@),
                    block_address,
                    bounds.span(),
                ) == Err::<NodeModel, BafsError>(error)
                ||| error == BafsError::InputOutputError && !device.reliable()
                    && !dirty_cache@.contains_key(block_address)
            },
        },
{
    match store::read_tree_node(device, dirty_cache, block_address) {
        Err(error) => Err(error),
        Ok(node) => {
            proof {
                let blocks = store::visible_blocks(device.contents(), dirty_cache@);
                assert(blocks[block_address].len() == 4096);
                node::lemma_node_in_block(blocks[block_address], block_address);
            }
            let valid = node.level < bounds.levels && (if node.level == 0 {
                leaf_items_are_valid(&node.leaf_items, bounds)
            } else {
                internal_items_are_valid(&node.internal_items, bounds)
            });
            if valid {
                Ok(node)
            } else {
                Err(BafsError::CorruptedStructure)
            }
        },
    }
}

/// The position of the first item whose key is not before `target_key`.
fn find_leaf_position(items: &Vec<BafsLeafItem>, target_key: &BafsKey) -> (position: usize)
    requires
        model::sorted(model::leaf_ranks(node::leaf_entries(items@))),
    ensures
        position == model::lower_bound(
            model::leaf_ranks(node::leaf_entries(items@)),
            target_key.rank(),
        ),
        position <= items@.len(),
{
    let ghost ranks = model::leaf_ranks(node::leaf_entries(items@));
    let mut low: usize = 0;
    let mut high: usize = items.len();
    while low < high
        invariant
            0 <= low <= high <= items@.len(),
            ranks == model::leaf_ranks(node::leaf_entries(items@)),
            model::sorted(ranks),
            low > 0 ==> ranks[low - 1] < target_key.rank(),
            high < ranks.len() ==> ranks[high as int] >= target_key.rank(),
        decreases high - low,
    {
        let middle: usize = low + (high - low) / 2;
        assert(ranks[middle as int] == items@[middle as int].key.rank());
        if items[middle].key.precedes(target_key) {
            low = middle + 1;
        } else {
            high = middle;
        }
    }
    proof {
        model::lemma_lower_bound_is(ranks, target_key.rank(), low as int);
    }
    low
}

/// The index of the child that is responsible for `target_key`: the last one
/// whose separator is not greater, or else the first one.
fn find_child_index_for_key(
    internal_items: &Vec<BafsInternalItem>,
    target_key: &BafsKey,
) -> (index: usize)
    requires
        internal_items@.len() > 0,
        model::sorted(model::separator_ranks(internal_items@)),
    ensures
        index == model::child_index(internal_items@, target_key.rank()),
        index < internal_items@.len(),
{
    let ghost ranks = model::separator_ranks(internal_items@);
    let mut low: usize = 0;
    let mut high: usize = internal_items.len();
    while low < high
        invariant
            0 <= low <= high <= internal_items@.len(),
            ranks == model::separator_ranks(internal_items@),
            model::sorted(ranks),
            low > 0 ==> ranks[low - 1] < target_key.rank() + 1,
            high < ranks.len() ==> ranks[high as int] >= target_key.rank() + 1,
        decreases high - low,
    {
        let middle: usize = low + (high - low) / 2;
        assert(ranks[middle as int] == internal_items@[middle as int].key.rank());
        if target_key.precedes(&internal_items[middle].key) {
            high = middle;
        } else {
            low = middle + 1;
        }
    }
    proof {
        model::lemma_lower_bound_is(ranks, target_key.rank() + 1, low as int);
    }
    if low == 0 {
        0
    } else {
        low - 1
    }
}

/// What an optional value stands for.
pub open spec fn optional_value(value: Option<Vec<u8>>) -> Option<Seq<u8>> {
    match value {
        Some(value) => Some(value@),
        None => None,
    }
}

/// The value of `target_key`, if the tree holds it.
pub fn lookup_in_tree<D: BlockDevice>(
    device: &D,
    dirty_cache: &BTreeMap<u64, Vec<u8>>,
    root_block_address: u64,
    target_key: BafsKey,
) -> (result: Result<Option<Vec<u8>>, BafsError>)
    requires
        store::cache_valid(dirty_cache@),
    ensures
        match result {
            Ok(value) => model::tree_get(
                store::visible_blocks(device.contents(), dirty_cache@),
                root_block_address,
                target_key,
            ) == Ok::<Option<Seq<u8>>, BafsError>(optional_value(value)),
            Err(error) => {
                ||| model::tree_get(
                    store::visible_blocks(device.contents(), dirty_cache@),
                    root_block_address,
                    target_key,
                ) == Err::<Option<Seq<u8>>, BafsError>(error)
                ||| error == BafsError::InputOutputError && !device.reliable()
                    && !model::path_cached(
                    store::visible_blocks(device.contents(), dirty_cache@),
                    dirty_cache@.dom(),
                    root_block_address,
                    model::root_span(),
                    target_key.rank(),
                )
            },
        },
{
    let ghost blocks = store::visible_blocks(device.contents(), dirty_cache@);
    let mut address: u64 = root_block_address;
    let mut bounds = SubtreeBounds::whole_tree();
    loop
        invariant
            store::cache_valid(dirty_cache@),
            blocks == store::visible_blocks(device.contents(), dirty_cache@),
            model::tree_get(blocks, root_block_address, target_key) == model::subtree_get(
                blocks,
                address,
                bounds.span(),
                target_key,
            ),
            model::path_cached(
                blocks,
                dirty_cache@.dom(),
                root_block_address,
                model::root_span(),
                target_key.rank(),
            ) ==> model::path_cached(
                blocks,
                dirty_cache@.dom(),
                address,
                bounds.span(),
                target_key.rank(),
            ),
        decreases bounds.levels,
    {
        proof {
            reveal(model::path_cached);
        }
        match read_checked_node(device, dirty_cache, address, &bounds) {
            Err(error) => {
                return Err(error);
            },
            Ok(node) => {
                if node.level == 0 {
                    let position: usize = find_leaf_position(&node.leaf_items, &target_key);
                    assert(node@.leaf_items.len() == node.leaf_items@.len());
                    if position < node.leaf_items.len() && node.leaf_items[position].key.same(
                        &target_key,
                    ) {
                        return Ok(Some(slice_to_vec(node.leaf_items[position].value.as_slice())));
                    }
                    return Ok(None);
                }
                let index: usize = find_child_index_for_key(&node.internal_items, &target_key);
                address = node.internal_items[index].child_block;
                bounds = bounds.child(&node.internal_items, index, node.level);
            },
        }
    }
}

/// Where a subtree that became too large for one node was divided.
pub struct SplitResult {
    /// The separator of the new right-hand node.
    pub key: BafsKey,
    /// The block of the new right-hand node.
    pub child_block: u64,
}

/// The siblings that took the place of a subtree: one, or two after a split.
pub open spec fn parts_of(
    lower: BafsKey,
    left: u64,
    split: Option<SplitResult>,
    generation: u64,
) -> Seq<BafsInternalItem> {
    let first = BafsInternalItem { key: lower, child_block: left, child_generation: generation };
    match split {
        None => seq![first],
        Some(right) => seq![
            first,
            BafsInternalItem {
                key: right.key,
                child_block: right.child_block,
                child_generation: generation,
            },
        ],
    }
}

/// The lesser one of two keys.
pub open spec fn lesser(left: BafsKey, right: BafsKey) -> BafsKey {
    if left.rank() < right.rank() {
        left
    } else {
        right
    }
}

/// A subtree was replaced, with one key's value changed.
pub open spec fn subtree_replaced(
    disk: Seq<u8>,
    old_cache: Map<u64, Vec<u8>>,
    new_cache: Map<u64, Vec<u8>>,
    address: u64,
    span: Span,
    parts: Seq<BafsInternalItem>,
    changed_key: BafsKey,
    change: Option<Seq<u8>>,
    old_next: int,
    new_next: int,
) -> bool {
    let before = store::visible_blocks(disk, old_cache);
    let after = store::visible_blocks(disk, new_cache);
    let level = model::checked_node(before, address, span)->Ok_0.level;
    &&& model::checked_node(before, address, span) is Ok
    &&& store::cache_valid(new_cache)
    &&& store::cow_frame(old_cache, new_cache, old_next, new_next)
    &&& old_next < new_next <= old_next + 2 * (level + 1)
    &&& parts[0].child_block == new_next - 1
    &&& model::sorted(model::separator_ranks(parts))
    &&& model::within(model::separator_ranks(parts), parts[0].key.rank(), span.upper)
    &&& forall|i: int|
        0 <= i < parts.len() ==> {
            let found = model::checked_node(
                after,
                (#[trigger] parts[i]).child_block,
                model::child_span(parts, i, span.upper, span.levels),
            );
            &&& found is Ok
            &&& found->Ok_0.level == level
            &&& parts.len() > 1 && level == 0 ==> found->Ok_0.leaf_items.len() > 0
            &&& new_cache.contains_key(parts[i].child_block)
        }
    &&& forall|base: int| #[trigger]
        model::subtree_changed(
            before,
            address,
            span,
            after,
            parts,
            changed_key,
            change,
            base,
            old_next,
            new_next,
        )
}

fn prefix_values_len(items: &Vec<BafsLeafItem>, count: usize) -> (total: u64)
    requires
        count <= items@.len(),
        node::leaf_size(node::leaf_entries(items@)) <= u64::MAX,
    ensures
        total == node::values_len(node::leaf_entries(items@).take(count as int)),
{
    let ghost entries = node::leaf_entries(items@);
    let mut total: u64 = 0;
    let mut index: usize = 0;
    assert(entries.take(0) =~= Seq::empty());
    while index < count
        invariant
            index <= count <= items@.len(),
            entries == node::leaf_entries(items@),
            node::leaf_size(entries) <= u64::MAX,
            total == node::values_len(entries.take(index as int)),
        decreases count - index,
    {
        proof {
            node::lemma_values_len_of_prefix(entries, index as int);
        }
        total = total + items[index].value.len() as u64;
        index = index + 1;
    }
    total
}

proof fn lemma_sizes_of_halves(items: Seq<LeafEntry>, split: int)
    requires
        0 <= split <= items.len(),
    ensures
        node::leaf_size(items.take(split)) == 24 + 25 * split + node::values_len(items.take(split)),
        node::leaf_size(items.skip(split)) == 24 + 25 * (items.len() - split) + node::values_len(
            items,
        ) - node::values_len(items.take(split)),
{
    node::lemma_values_len_cut(items, split);
}

proof fn lemma_prefix_sizes_grow(items: Seq<LeafEntry>, low: int, high: int)
    requires
        0 <= low <= high <= items.len(),
    ensures
        node::values_len(items.take(low)) <= node::values_len(items.take(high))
            <= node::values_len(items),
    decreases high - low,
{
    if low < high {
        lemma_prefix_sizes_grow(items, low, high - 1);
        node::lemma_values_len_of_prefix(items, high - 1);
    } else if high > 0 {
        node::lemma_values_len_of_prefix(items, high - 1);
    } else {
        assert(items.take(0) =~= Seq::empty());
    }
}

proof fn lemma_split_not_found(entries: Seq<LeafEntry>, middle: int, first: int, split: int)
    requires
        1 <= first <= split < entries.len(),
        first <= middle < entries.len(),
        first < middle ==> node::leaf_size(entries.take(first + 1)) > 4096,
        first > 1 ==> node::leaf_size(entries.take(first)) <= 4096,
        split > first ==> node::leaf_size(entries.skip(split - 1)) > 4096,
        split < entries.len() - 1 ==> node::leaf_size(entries.skip(split)) <= 4096,
        node::leaf_size(entries.take(split)) > 4096 || node::leaf_size(entries.skip(split)) > 4096,
    ensures
        !model::leaf_splittable(entries),
{
    if model::leaf_splittable(entries) {
        let good = choose|good: int|
            0 < good < entries.len() && node::leaf_size(#[trigger] entries.take(good)) <= 4096
                && node::leaf_size(entries.skip(good)) <= 4096;
        lemma_sizes_of_halves(entries, good);
        lemma_sizes_of_halves(entries, first);
        lemma_sizes_of_halves(entries, split);
        if good <= first {
            lemma_prefix_sizes_grow(entries, good, first);
            if split > first {
                lemma_sizes_of_halves(entries, split - 1);
                lemma_prefix_sizes_grow(entries, good, split - 1);
            }
        } else {
            if first < middle {
                lemma_sizes_of_halves(entries, first + 1);
                lemma_prefix_sizes_grow(entries, first + 1, good);
            }
            if split <= good {
                lemma_prefix_sizes_grow(entries, split, good);
            } else {
                lemma_sizes_of_halves(entries, split - 1);
                lemma_prefix_sizes_grow(entries, good, split - 1);
            }
        }
    }
}

/// A place to cut a leaf such that both halves fit into a block: near the
/// middle, moved left or right as far as needed.
#[verifier::spinoff_prover]
#[verifier::rlimit(60)]
fn find_leaf_split(items: &Vec<BafsLeafItem>) -> (result: Option<usize>)
    requires
        node::leaf_size(node::leaf_entries(items@)) <= u64::MAX,
    ensures
        match result {
            Some(split) => {
                &&& split == model::leaf_cut_place(node::leaf_entries(items@))
                &&& 0 < split < items@.len()
                &&& node::leaf_size(node::leaf_entries(items@).take(split as int)) <= 4096
                &&& node::leaf_size(node::leaf_entries(items@).skip(split as int)) <= 4096
            },
            None => !model::leaf_splittable(node::leaf_entries(items@)),
        },
{
    let ghost entries = node::leaf_entries(items@);
    let count: usize = items.len();
    if count < 2 {
        return None;
    }
    let total: u64 = prefix_values_len(items, count);
    assert(entries.take(count as int) =~= entries);
    let mut split: usize = count / 2;
    let ghost middle = split as int;
    let mut left: u64 = prefix_values_len(items, split);
    proof {
        lemma_prefix_sizes_grow(entries, split as int, count as int);
    }
    while split > 1 && 24 + 25 * (split as u64) + left > 4096
        invariant
            1 <= split <= middle < count,
            count == items@.len(),
            entries == node::leaf_entries(items@),
            node::leaf_size(entries) <= u64::MAX,
            left == node::values_len(entries.take(split as int)),
            left <= total == node::values_len(entries),
            model::cut_moved_left(entries, middle) == model::cut_moved_left(
                entries,
                split as int,
            ),
            split < middle ==> node::leaf_size(entries.take(split + 1)) > 4096,
        decreases split,
    {
        split = split - 1;
        left = prefix_values_len(items, split);
        proof {
            lemma_prefix_sizes_grow(entries, split as int, count as int);
        }
    }
    let ghost first = split as int;
    assert(first == model::cut_moved_left(entries, middle));
    while split < count - 1 && 24 + 25 * ((count - split) as u64) + (total - left) > 4096
        invariant
            1 <= first <= split < count,
            first <= middle,
            count == items@.len(),
            entries == node::leaf_entries(items@),
            node::leaf_size(entries) <= u64::MAX,
            left == node::values_len(entries.take(split as int)),
            left <= total == node::values_len(entries),
            model::cut_moved_right(entries, first) == model::cut_moved_right(
                entries,
                split as int,
            ),
            first < middle ==> node::leaf_size(entries.take(first + 1)) > 4096,
            first > 1 ==> node::leaf_size(entries.take(first)) <= 4096,
            split > first ==> node::leaf_size(entries.skip(split - 1)) > 4096,
        decreases count - split,
    {
        proof {
            lemma_sizes_of_halves(entries, split as int);
        }
        split = split + 1;
        left = prefix_values_len(items, split);
        proof {
            lemma_prefix_sizes_grow(entries, split as int, count as int);
        }
    }
    proof {
        lemma_sizes_of_halves(entries, split as int);
    }
    assert(split == model::leaf_cut_place(entries));
    if 24 + 25 * (split as u64) + left <= 4096 && 24 + 25 * ((count - split) as u64) + (total
        - left) <= 4096 {
        Some(split)
    } else {
        proof {
            lemma_split_not_found(entries, middle, first, split as int);
        }
        None
    }
}

proof fn lemma_oversized_value(items: Seq<LeafEntry>, target: BafsKey, value: Seq<u8>)
    requires
        model::sorted(model::leaf_ranks(items)),
        value.len() > 4096,
    ensures
        !model::leaf_storable(model::leaf_put(items, target, value)),
{
    let result = model::leaf_put(items, target, value);
    model::lemma_lower_bound(model::leaf_ranks(items), target.rank());
    let position = model::lower_bound(model::leaf_ranks(items), target.rank());
    assert(result[position].value == value);
    node::lemma_value_in_values_len(result, position);
    if model::leaf_splittable(result) {
        let split = choose|split: int|
            0 < split < result.len() && node::leaf_size(#[trigger] result.take(split)) <= 4096
                && node::leaf_size(result.skip(split)) <= 4096;
        if position < split {
            assert(result.take(split)[position].value == value);
            node::lemma_value_in_values_len(result.take(split), position);
        } else {
            assert(result.skip(split)[position - split].value == value);
            node::lemma_value_in_values_len(result.skip(split), position - split);
        }
    }
}

proof fn lemma_leaf_replaced_by_one(
    disk: Seq<u8>,
    old_cache: Map<u64, Vec<u8>>,
    new_cache: Map<u64, Vec<u8>>,
    address: u64,
    span: Span,
    leaf: NodeModel,
    written: NodeModel,
    lower: BafsKey,
    key: BafsKey,
    value: Seq<u8>,
    generation: u64,
    next: u64,
)
    requires
        store::cache_valid(new_cache),
        new_cache.contains_key(next),
        store::cow_frame(old_cache, new_cache, next as int, next + 1),
        store::visible_blocks(disk, new_cache) == store::visible_blocks(disk, old_cache).insert(
            next,
            node::node_block_bytes(written),
        ),
        model::checked_node(store::visible_blocks(disk, old_cache), address, span) == Ok::<
            NodeModel,
            BafsError,
        >(leaf),
        leaf.level == 0,
        written.level == 0,
        written.leaf_items == model::leaf_put(leaf.leaf_items, key, value),
        written.item_count == written.leaf_items.len(),
        written.internal_items.len() == 0,
        node::leaf_size(written.leaf_items) <= 4096,
        span.lower == lower.rank(),
        key.rank() < span.upper,
    ensures
        subtree_replaced(
            disk,
            old_cache,
            new_cache,
            address,
            span,
            parts_of(lesser(key, lower), next, None, generation),
            key,
            Some(value),
            next as int,
            next + 1,
        ),
{
    let before = store::visible_blocks(disk, old_cache);
    let after = store::visible_blocks(disk, new_cache);
    let lower_key = lesser(key, lower);
    let parts = parts_of(lower_key, next, None, generation);
    model::lemma_leaf_put(leaf.leaf_items, key, value, span.lower, span.upper);
    model::lemma_written_node(
        after,
        next,
        written,
        model::child_span(parts, 0, span.upper, span.levels),
    );
    model::lemma_single_leaf(
        after,
        parts,
        parts[0],
        span.upper,
        span.levels,
        written.leaf_items,
    );
    lemma_leaf_changed(
        before,
        after,
        address,
        span,
        leaf,
        written.leaf_items,
        parts,
        key,
        Some(value),
        next as int,
        next + 1,
    );
    assert(model::separator_ranks(parts) =~= seq![lower_key.rank()]);
}

#[verifier::spinoff_prover]
#[verifier::rlimit(60)]
proof fn lemma_leaf_replaced_by_two(
    disk: Seq<u8>,
    old_cache: Map<u64, Vec<u8>>,
    new_cache: Map<u64, Vec<u8>>,
    address: u64,
    span: Span,
    leaf: NodeModel,
    left: NodeModel,
    right: NodeModel,
    split: int,
    lower: BafsKey,
    key: BafsKey,
    value: Seq<u8>,
    generation: u64,
    next: u64,
    split_result: SplitResult,
)
    requires
        next + 1 <= u64::MAX,
        store::cache_valid(new_cache),
        new_cache.contains_key(next),
        new_cache.contains_key((next + 1) as u64),
        store::cow_frame(old_cache, new_cache, next as int, next + 2),
        store::visible_blocks(disk, new_cache) == store::visible_blocks(disk, old_cache).insert(
            (next + 1) as u64,
            node::node_block_bytes(left),
        ).insert(next, node::node_block_bytes(right)),
        model::checked_node(store::visible_blocks(disk, old_cache), address, span) == Ok::<
            NodeModel,
            BafsError,
        >(leaf),
        leaf.level == 0,
        left.level == 0,
        right.level == 0,
        0 < split < model::leaf_put(leaf.leaf_items, key, value).len(),
        left.leaf_items == model::leaf_put(leaf.leaf_items, key, value).take(split),
        right.leaf_items == model::leaf_put(leaf.leaf_items, key, value).skip(split),
        left.item_count == left.leaf_items.len(),
        right.item_count == right.leaf_items.len(),
        left.internal_items.len() == 0,
        right.internal_items.len() == 0,
        node::leaf_size(left.leaf_items) <= 4096,
        node::leaf_size(right.leaf_items) <= 4096,
        split_result.key == model::leaf_put(leaf.leaf_items, key, value)[split].key,
        split_result.child_block == next,
        span.lower == lower.rank(),
        key.rank() < span.upper,
    ensures
        subtree_replaced(
            disk,
            old_cache,
            new_cache,
            address,
            span,
            parts_of(lesser(key, lower), (next + 1) as u64, Some(split_result), generation),
            key,
            Some(value),
            next as int,
            next + 2,
        ),
{
    let before = store::visible_blocks(disk, old_cache);
    let after = store::visible_blocks(disk, new_cache);
    let lower_key = lesser(key, lower);
    let left_block = (next + 1) as u64;
    let parts = parts_of(lower_key, left_block, Some(split_result), generation);
    let items = model::leaf_put(leaf.leaf_items, key, value);
    model::lemma_leaf_put(leaf.leaf_items, key, value, span.lower, span.upper);
    model::lemma_leaf_cut(items, split, lower_key.rank(), span.upper);
    assert(model::separator_ranks(parts) =~= seq![lower_key.rank(), split_result.key.rank()]);
    model::lemma_written_node(
        after,
        left_block,
        left,
        model::child_span(parts, 0, span.upper, span.levels),
    );
    model::lemma_written_node(
        after,
        next,
        right,
        model::child_span(parts, 1, span.upper, span.levels),
    );
    model::lemma_double_leaf(
        after,
        parts,
        parts[0],
        parts[1],
        lower_key.rank(),
        span.upper,
        span.levels,
        items,
        split,
    );
    lemma_leaf_changed(
        before,
        after,
        address,
        span,
        leaf,
        items,
        parts,
        key,
        Some(value),
        next as int,
        next + 2,
    );
}

proof fn lemma_leaf_changed(
    before: Map<u64, Seq<u8>>,
    after: Map<u64, Seq<u8>>,
    address: u64,
    span: Span,
    leaf: NodeModel,
    items: Seq<LeafEntry>,
    parts: Seq<BafsInternalItem>,
    key: BafsKey,
    change: Option<Seq<u8>>,
    old_next: int,
    new_next: int,
)
    requires
        model::checked_node(before, address, span) == Ok::<NodeModel, BafsError>(leaf),
        leaf.level == 0,
        forall|i: int| 0 <= i < parts.len() ==> old_next <= (#[trigger] parts[i]).child_block < new_next,
        forall|target: BafsKey| #[trigger]
            model::leaf_get(items, target) == if target == key {
                change
            } else {
                model::leaf_get(leaf.leaf_items, target)
            },
        forall|target: BafsKey| #[trigger]
            model::siblings_get(after, parts, span.upper, span.levels, target) == Ok::<
                Option<Seq<u8>>,
                BafsError,
            >(model::leaf_get(items, target)),
        forall|base: int, bound: int|
            (forall|i: int|
                0 <= i < parts.len() ==> base <= (#[trigger] parts[i]).child_block < bound)
                ==> #[trigger] model::siblings_confined(
                after,
                parts,
                span.upper,
                span.levels,
                base,
                bound,
            ),
    ensures
        forall|base: int| #[trigger]
            model::subtree_changed(
                before,
                address,
                span,
                after,
                parts,
                key,
                change,
                base,
                old_next,
                new_next,
            ),
{
    assert forall|base: int| #[trigger]
        model::subtree_changed(
            before,
            address,
            span,
            after,
            parts,
            key,
            change,
            base,
            old_next,
            new_next,
        ) by {
        if model::confined(before, address, span, base, old_next) {
            assert forall|target: BafsKey| target.rank() < span.upper implies #[trigger] model::siblings_get(
                after,
                parts,
                span.upper,
                span.levels,
                target,
            ) == model::changed(
                model::subtree_get(before, address, span, target),
                target,
                key,
                change,
            ) by {
                assert(model::subtree_get(before, address, span, target) == Ok::<
                    Option<Seq<u8>>,
                    BafsError,
                >(model::leaf_get(leaf.leaf_items, target)));
            }
        }
    }
}

/// Put the two halves of a node into the cache. The left one stands behind the
/// right one.
fn write_node_pair(
    dirty_cache: &mut BTreeMap<u64, Vec<u8>>,
    left: &BafsTreeNode,
    right: &BafsTreeNode,
    generation: u64,
)
    requires
        node::node_fits(left@),
        node::node_fits(right@),
        left.self_block_address == right.self_block_address + 1,
        left.generation == generation,
        right.generation == generation,
    ensures
        final(dirty_cache)@.contains_key(left.self_block_address),
        final(dirty_cache)@.contains_key(right.self_block_address),
        store::cow_frame(
            old(dirty_cache)@,
            final(dirty_cache)@,
            right.self_block_address as int,
            right.self_block_address + 2,
        ),
        store::cache_valid(old(dirty_cache)@) ==> store::cache_valid(final(dirty_cache)@),
        store::stamped(
            final(dirty_cache)@,
            right.self_block_address as int,
            right.self_block_address + 2,
            generation,
        ),
        forall|disk: Seq<u8>| #[trigger]
            store::visible_blocks(disk, final(dirty_cache)@) == store::visible_blocks(
                disk,
                old(dirty_cache)@,
            ).insert(left.self_block_address, node::node_block_bytes(left@)).insert(
                right.self_block_address,
                node::node_block_bytes(right@),
            ),
{
    let ghost first = dirty_cache@;
    store::write_tree_node_to_cache(dirty_cache, left);
    let ghost second = dirty_cache@;
    store::write_tree_node_to_cache(dirty_cache, right);
    proof {
        let third = dirty_cache@;
        let address = right.self_block_address;
        assert(third.contains_key(left.self_block_address)
            == second.contains_key(left.self_block_address));
        store::lemma_stamped_one(third, address, generation);
        store::lemma_stamped_one(third, left.self_block_address, generation);
        store::lemma_stamped_joins(
            third,
            third,
            address as int,
            address + 1,
            address + 2,
            generation,
        );
        assert forall|other: u64|
            !(address <= other < address + 2) implies #[trigger] third.contains_key(other)
            == first.contains_key(other) && (first.contains_key(other) ==> third[other]
            == first[other]) by {
            assert(second.contains_key(other) == first.contains_key(other));
        }
        assert forall|disk: Seq<u8>| #[trigger]
            store::visible_blocks(disk, third) == store::visible_blocks(disk, first).insert(
                left.self_block_address,
                node::node_block_bytes(left@),
            ).insert(address, node::node_block_bytes(right@)) by {
            assert(store::visible_blocks(disk, second) == store::visible_blocks(
                disk,
                first,
            ).insert(left.self_block_address, node::node_block_bytes(left@)));
        }
    }
}

/// Put `value` under `key` into a leaf, and write the leaf to one new block or,
/// if it became too large, to two.
#[verifier::spinoff_prover]
#[verifier::rlimit(60)]
fn insert_into_leaf(
    dirty_cache: &mut BTreeMap<u64, Vec<u8>>,
    block_address: u64,
    leaf: BafsTreeNode,
    bounds: &SubtreeBounds,
    key: BafsKey,
    value: Vec<u8>,
    generation: u64,
    next_free_block: &mut u64,
    freed_blocks: &mut Vec<u64>,
    Ghost(disk): Ghost<Seq<u8>>,
) -> (result: Result<(u64, Option<SplitResult>), BafsError>)
    requires
        store::cache_valid(old(dirty_cache)@),
        model::checked_node(
            store::visible_blocks(disk, old(dirty_cache)@),
            block_address,
            bounds.span(),
        ) == Ok::<NodeModel, BafsError>(leaf@),
        counts_agree(leaf@),
        leaf.level == 0,
        key.rank() < bounds.span().upper,
        *old(next_free_block) + 2 <= u64::MAX,
    ensures
        store::stamped(
            final(dirty_cache)@,
            *old(next_free_block) as int,
            *final(next_free_block) as int,
            generation,
        ),
        match result {
            Ok((left, split)) => {
                &&& model::leaf_storable(model::leaf_put(leaf@.leaf_items, key, value@))
                &&& subtree_replaced(
                    disk,
                    old(dirty_cache)@,
                    final(dirty_cache)@,
                    block_address,
                    bounds.span(),
                    parts_of(lesser(key, bounds.lower), left, split, generation),
                    key,
                    Some(value@),
                    *old(next_free_block) as int,
                    *final(next_free_block) as int,
                )
                &&& growth::leaf_written(
                    store::visible_blocks(disk, final(dirty_cache)@),
                    model::leaf_put(leaf@.leaf_items, key, value@),
                    left,
                    split,
                    *old(next_free_block) as int,
                    *final(next_free_block) as int,
                )
                &&& final(freed_blocks)@ == old(freed_blocks)@.push(block_address)
            },
            Err(error) => {
                &&& error == BafsError::InvalidArgument
                &&& !model::leaf_storable(model::leaf_put(leaf@.leaf_items, key, value@))
                &&& final(dirty_cache)@ == old(dirty_cache)@
                &&& *final(next_free_block) == *old(next_free_block)
                &&& final(freed_blocks)@ == old(freed_blocks)@
            },
        },
{
    let ghost old_node = leaf@;
    let ghost old_items = leaf@.leaf_items;
    let ghost new_items = model::leaf_put(old_items, key, value@);
    let ghost span = bounds.span();
    if value.len() > 4096 {
        proof {
            lemma_oversized_value(old_items, key, value@);
        }
        return Err(BafsError::InvalidArgument);
    }
    let mut node = leaf;
    let position: usize = find_leaf_position(&node.leaf_items, &key);
    let present = position < node.leaf_items.len() && node.leaf_items[position].key.same(&key);
    let item = BafsLeafItem { key, value };
    let ghost entry = item@;
    if present {
        node.leaf_items.set(position, item);
        assert(node::leaf_entries(node.leaf_items@) =~= old_items.update(position as int, entry));
    } else {
        node.leaf_items.insert(position, item);
        assert(node::leaf_entries(node.leaf_items@) =~= old_items.insert(position as int, entry));
    }
    proof {
        assert(node@.leaf_items =~= new_items);
        lemma_put_size(old_items, key, entry.value);
        assert(new_items.len() <= old_items.len() + 1);
    }
    if !node::leaf_node_would_overflow(&node.leaf_items) {
        let new_block: u64 = *next_free_block;
        *next_free_block = new_block + 1;
        freed_blocks.push(block_address);
        node.item_count = node.leaf_items.len() as u16;
        node.self_block_address = new_block;
        node.generation = generation;
        store::write_tree_node_to_cache(dirty_cache, &node);
        proof {
            growth::lemma_node_written(
                store::visible_blocks(disk, dirty_cache@),
                new_block,
                node@,
            );
            store::lemma_stamped_one(dirty_cache@, new_block, generation);
            lemma_leaf_replaced_by_one(
                disk,
                old(dirty_cache)@,
                dirty_cache@,
                block_address,
                span,
                old_node,
                node@,
                bounds.lower,
                key,
                entry.value,
                generation,
                new_block,
            );
        }
        Ok((new_block, None))
    } else {
        match find_leaf_split(&node.leaf_items) {
            None => Err(BafsError::InvalidArgument),
            Some(split) => {
                assert(model::leaf_splittable(new_items)) by {
                    assert(node::leaf_size(new_items.take(split as int)) <= 4096);
                }
                let right_items: Vec<BafsLeafItem> = node.leaf_items.split_off(split);
                let split_key: BafsKey = right_items[0].key;
                let right_block: u64 = *next_free_block;
                let left_block: u64 = right_block + 1;
                *next_free_block = left_block + 1;
                freed_blocks.push(block_address);
                let right_node = BafsTreeNode {
                    node_checksum: 0,
                    level: 0,
                    flags: 0,
                    item_count: right_items.len() as u16,
                    self_block_address: right_block,
                    generation,
                    leaf_items: right_items,
                    internal_items: Vec::new(),
                };
                node.item_count = node.leaf_items.len() as u16;
                node.self_block_address = left_block;
                node.generation = generation;
                proof {
                    assert(node@.leaf_items =~= new_items.take(split as int));
                    assert(right_node@.leaf_items =~= new_items.skip(split as int));
                }
                write_node_pair(dirty_cache, &node, &right_node, generation);
                let split_result = SplitResult { key: split_key, child_block: right_block };
                proof {
                    let after = store::visible_blocks(disk, dirty_cache@);
                    growth::lemma_node_written(after, left_block, node@);
                    growth::lemma_node_written(after, right_block, right_node@);
                    assert(growth::leaf_cut(after, new_items, left_block, split_result));
                    lemma_leaf_replaced_by_two(
                        disk,
                        old(dirty_cache)@,
                        dirty_cache@,
                        block_address,
                        span,
                        old_node,
                        node@,
                        right_node@,
                        split as int,
                        bounds.lower,
                        key,
                        entry.value,
                        generation,
                        right_block,
                        split_result,
                    );
                }
                Ok((left_block, Some(split_result)))
            },
        }
    }
}

proof fn lemma_put_size(items: Seq<LeafEntry>, target: BafsKey, value: Seq<u8>)
    requires
        model::sorted(model::leaf_ranks(items)),
    ensures
        node::leaf_size(model::leaf_put(items, target, value)) <= node::leaf_size(items) + 25
            + value.len(),
{
    let position = model::lower_bound(model::leaf_ranks(items), target.rank());
    model::lemma_lower_bound(model::leaf_ranks(items), target.rank());
    let result = model::leaf_put(items, target, value);
    node::lemma_values_len_cut(result, position);
    node::lemma_values_len_cut(items, position);
    assert(result.take(position) =~= items.take(position));
    let tail = result.skip(position);
    node::lemma_values_len_cut(tail, 1);
    assert(tail.take(1) =~= seq![LeafEntry { key: target, value }]);
    assert(tail.take(1).drop_last() =~= Seq::empty());
    assert(node::values_len(tail.take(1)) == value.len()) by {
        reveal_with_fuel(node::values_len, 2);
    }
    if position < items.len() && items[position].key == target {
        let old_tail = items.skip(position);
        node::lemma_values_len_cut(old_tail, 1);
        assert(tail.skip(1) =~= old_tail.skip(1));
    } else {
        assert(tail.skip(1) =~= items.skip(position));
    }
}

/// What is known once the child at `index` of a node was replaced by `parts`,
/// and before the node itself is written.
spec fn child_replaced(
    disk: Seq<u8>,
    old_cache: Map<u64, Vec<u8>>,
    middle_cache: Map<u64, Vec<u8>>,
    address: u64,
    span: Span,
    node: NodeModel,
    index: int,
    parts: Seq<BafsInternalItem>,
    key: BafsKey,
    change: Option<Seq<u8>>,
    old_next: int,
    middle_next: int,
) -> bool {
    let before = store::visible_blocks(disk, old_cache);
    &&& model::checked_node(before, address, span) == Ok::<NodeModel, BafsError>(node)
    &&& node.level > 0
    &&& key.rank() < span.upper
    &&& index == model::child_index(node.internal_items, key.rank())
    &&& parts.len() > 0
    &&& parts[0].key == lesser(key, node.internal_items[index].key)
    &&& subtree_replaced(
        disk,
        old_cache,
        middle_cache,
        node.internal_items[index].child_block,
        model::child_span(node.internal_items, index, span.upper, node.level as nat),
        parts,
        key,
        change,
        old_next,
        middle_next,
    )
}

proof fn lemma_child_replaced(
    disk: Seq<u8>,
    old_cache: Map<u64, Vec<u8>>,
    middle_cache: Map<u64, Vec<u8>>,
    address: u64,
    span: Span,
    node: NodeModel,
    index: int,
    parts: Seq<BafsInternalItem>,
    lower: BafsKey,
    key: BafsKey,
    change: Option<Seq<u8>>,
    old_next: int,
    middle_next: int,
)
    requires
        child_replaced(
            disk,
            old_cache,
            middle_cache,
            address,
            span,
            node,
            index,
            parts,
            key,
            change,
            old_next,
            middle_next,
        ),
        span.lower == lower.rank(),
    ensures
        model::parts_fit(node.internal_items, index, span.upper, parts),
        ({
            let items = model::splice(node.internal_items, index, parts);
            &&& items.len() == node.internal_items.len() + parts.len() - 1
            &&& model::sorted(model::separator_ranks(items))
            &&& model::within(
                model::separator_ranks(items),
                lesser(key, lower).rank(),
                span.upper,
            )
        }),
        middle_next <= old_next + 2 * node.level,
{
    let items = node.internal_items;
    model::lemma_child_index(items, key.rank());
    let ranks = model::separator_ranks(items);
    assert(ranks[index] == items[index].key.rank());
    model::lemma_splice_sorted(items, index, span.upper, span.lower, parts);
}

proof fn lemma_internal_replaced(
    disk: Seq<u8>,
    old_cache: Map<u64, Vec<u8>>,
    middle_cache: Map<u64, Vec<u8>>,
    new_cache: Map<u64, Vec<u8>>,
    address: u64,
    span: Span,
    node: NodeModel,
    index: int,
    parts: Seq<BafsInternalItem>,
    new_parts: Seq<BafsInternalItem>,
    key: BafsKey,
    change: Option<Seq<u8>>,
    old_next: int,
    middle_next: int,
    new_next: int,
)
    requires
        child_replaced(
            disk,
            old_cache,
            middle_cache,
            address,
            span,
            node,
            index,
            parts,
            key,
            change,
            old_next,
            middle_next,
        ),
        model::parts_fit(node.internal_items, index, span.upper, parts),
        store::cow_frame(middle_cache, new_cache, middle_next, new_next),
        middle_next <= new_next,
        forall|i: int|
            0 <= i < new_parts.len() ==> middle_next <= (#[trigger] new_parts[i]).child_block
                < new_next,
        forall|target: BafsKey| #[trigger]
            model::siblings_get(
                store::visible_blocks(disk, new_cache),
                new_parts,
                span.upper,
                span.levels,
                target,
            ) == model::siblings_get(
                store::visible_blocks(disk, new_cache),
                model::splice(node.internal_items, index, parts),
                span.upper,
                node.level as nat,
                target,
            ),
        forall|base: int|
            base <= middle_next && model::siblings_confined(
                store::visible_blocks(disk, new_cache),
                model::splice(node.internal_items, index, parts),
                span.upper,
                node.level as nat,
                base,
                new_next,
            ) ==> #[trigger] model::siblings_confined(
                store::visible_blocks(disk, new_cache),
                new_parts,
                span.upper,
                span.levels,
                base,
                new_next,
            ),
    ensures
        forall|base: int| #[trigger]
            model::subtree_changed(
                store::visible_blocks(disk, old_cache),
                address,
                span,
                store::visible_blocks(disk, new_cache),
                new_parts,
                key,
                change,
                base,
                old_next,
                new_next,
            ),
{
    let before = store::visible_blocks(disk, old_cache);
    let middle = store::visible_blocks(disk, middle_cache);
    let after = store::visible_blocks(disk, new_cache);
    model::lemma_cow_frame_agrees(disk, old_cache, middle_cache, old_next, middle_next);
    model::lemma_cow_frame_agrees(disk, middle_cache, new_cache, middle_next, new_next);
    assert forall|base: int| #[trigger]
        model::subtree_changed(
            before,
            address,
            span,
            after,
            new_parts,
            key,
            change,
            base,
            old_next,
            new_next,
        ) by {
        if model::confined(before, address, span, base, old_next) {
            assert(model::subtree_changed(
                before,
                node.internal_items[index].child_block,
                model::child_span(node.internal_items, index, span.upper, node.level as nat),
                middle,
                parts,
                key,
                change,
                base,
                old_next,
                middle_next,
            ));
            assert(model::agree(before, middle, base, old_next));
            assert(model::agree(middle, after, base, middle_next));
            model::lemma_change_in_parent(
                before,
                middle,
                after,
                address,
                span,
                index,
                parts,
                new_parts,
                key,
                change,
                base,
                old_next,
                middle_next,
                new_next,
            );
        }
    }
}

#[verifier::spinoff_prover]
#[verifier::rlimit(60)]
proof fn lemma_internal_replaced_by_one(
    disk: Seq<u8>,
    old_cache: Map<u64, Vec<u8>>,
    middle_cache: Map<u64, Vec<u8>>,
    new_cache: Map<u64, Vec<u8>>,
    address: u64,
    span: Span,
    node: NodeModel,
    written: NodeModel,
    index: int,
    parts: Seq<BafsInternalItem>,
    lower: BafsKey,
    key: BafsKey,
    change: Option<Seq<u8>>,
    generation: u64,
    old_next: int,
    next: u64,
)
    requires
        child_replaced(
            disk,
            old_cache,
            middle_cache,
            address,
            span,
            node,
            index,
            parts,
            key,
            change,
            old_next,
            next as int,
        ),
        span.lower == lower.rank(),
        store::cache_valid(new_cache),
        new_cache.contains_key(next),
        store::cow_frame(middle_cache, new_cache, next as int, next + 1),
        store::visible_blocks(disk, new_cache) == store::visible_blocks(disk, middle_cache).insert(
            next,
            node::node_block_bytes(written),
        ),
        written.level == node.level,
        written.internal_items == model::splice(node.internal_items, index, parts),
        written.item_count == written.internal_items.len(),
        written.leaf_items.len() == 0,
        written.internal_items.len() <= 123,
        parts.len() <= 2,
    ensures
        subtree_replaced(
            disk,
            old_cache,
            new_cache,
            address,
            span,
            parts_of(lesser(key, lower), next, None, generation),
            key,
            change,
            old_next,
            next + 1,
        ),
{
    let after = store::visible_blocks(disk, new_cache);
    let lower_key = lesser(key, lower);
    let new_parts = parts_of(lower_key, next, None, generation);
    lemma_child_replaced(
        disk,
        old_cache,
        middle_cache,
        address,
        span,
        node,
        index,
        parts,
        lower,
        key,
        change,
        old_next,
        next as int,
    );
    model::lemma_written_node(
        after,
        next,
        written,
        model::child_span(new_parts, 0, span.upper, span.levels),
    );
    model::lemma_single_part(
        after,
        new_parts,
        new_parts[0],
        span.upper,
        span.levels,
        written.internal_items,
        node.level,
    );
    lemma_internal_replaced(
        disk,
        old_cache,
        middle_cache,
        new_cache,
        address,
        span,
        node,
        index,
        parts,
        new_parts,
        key,
        change,
        old_next,
        next as int,
        next + 1,
    );
    store::lemma_cow_frame_joins(
        old_cache,
        middle_cache,
        new_cache,
        old_next,
        next as int,
        next + 1,
    );
    let ranks = model::separator_ranks(written.internal_items);
    assert(lower_key.rank() <= ranks[0] < span.upper);
    assert(model::separator_ranks(new_parts) =~= seq![lower_key.rank()]);
}

proof fn lemma_cut_separators(items: Seq<BafsInternalItem>, split: int, lower: int, upper: int)
    requires
        0 < split < items.len(),
        model::sorted(model::separator_ranks(items)),
        model::within(model::separator_ranks(items), lower, upper),
    ensures
        model::sorted(model::separator_ranks(items.take(split))),
        model::sorted(model::separator_ranks(items.skip(split))),
        model::within(
            model::separator_ranks(items.take(split)),
            lower,
            items[split].key.rank(),
        ),
        model::within(
            model::separator_ranks(items.skip(split)),
            items[split].key.rank(),
            upper,
        ),
        lower < items[split].key.rank() < upper,
{
    let ranks = model::separator_ranks(items);
    assert(ranks[split] == items[split].key.rank());
    assert(ranks[0] < ranks[split]);
    assert(model::separator_ranks(items.take(split)) =~= ranks.take(split));
    assert(model::separator_ranks(items.skip(split)) =~= ranks.skip(split));
}

#[verifier::spinoff_prover]
#[verifier::rlimit(40)]
proof fn lemma_internal_replaced_by_two(
    disk: Seq<u8>,
    old_cache: Map<u64, Vec<u8>>,
    middle_cache: Map<u64, Vec<u8>>,
    new_cache: Map<u64, Vec<u8>>,
    address: u64,
    span: Span,
    node: NodeModel,
    left: NodeModel,
    right: NodeModel,
    split: int,
    index: int,
    parts: Seq<BafsInternalItem>,
    lower: BafsKey,
    key: BafsKey,
    change: Option<Seq<u8>>,
    generation: u64,
    old_next: int,
    next: u64,
    split_result: SplitResult,
)
    requires
        child_replaced(
            disk,
            old_cache,
            middle_cache,
            address,
            span,
            node,
            index,
            parts,
            key,
            change,
            old_next,
            next as int,
        ),
        span.lower == lower.rank(),
        next + 1 <= u64::MAX,
        store::cache_valid(new_cache),
        new_cache.contains_key(next),
        new_cache.contains_key((next + 1) as u64),
        store::cow_frame(middle_cache, new_cache, next as int, next + 2),
        store::visible_blocks(disk, new_cache) == store::visible_blocks(disk, middle_cache).insert(
            (next + 1) as u64,
            node::node_block_bytes(left),
        ).insert(next, node::node_block_bytes(right)),
        left.level == node.level,
        right.level == node.level,
        0 < split < model::splice(node.internal_items, index, parts).len(),
        left.internal_items == model::splice(node.internal_items, index, parts).take(split),
        right.internal_items == model::splice(node.internal_items, index, parts).skip(split),
        left.item_count == left.internal_items.len(),
        right.item_count == right.internal_items.len(),
        left.leaf_items.len() == 0,
        right.leaf_items.len() == 0,
        left.internal_items.len() <= 123,
        right.internal_items.len() <= 123,
        split_result.key == model::splice(node.internal_items, index, parts)[split].key,
        split_result.child_block == next,
        parts.len() <= 2,
        model::splice(node.internal_items, index, parts).len() > 90,
    ensures
        subtree_replaced(
            disk,
            old_cache,
            new_cache,
            address,
            span,
            parts_of(lesser(key, lower), (next + 1) as u64, Some(split_result), generation),
            key,
            change,
            old_next,
            next + 2,
        ),
{
    let after = store::visible_blocks(disk, new_cache);
    let lower_key = lesser(key, lower);
    let left_block = (next + 1) as u64;
    let new_parts = parts_of(lower_key, left_block, Some(split_result), generation);
    let items = model::splice(node.internal_items, index, parts);
    lemma_child_replaced(
        disk,
        old_cache,
        middle_cache,
        address,
        span,
        node,
        index,
        parts,
        lower,
        key,
        change,
        old_next,
        next as int,
    );
    lemma_cut_separators(items, split, lower_key.rank(), span.upper);
    assert(model::separator_ranks(new_parts) =~= seq![lower_key.rank(), split_result.key.rank()]);
    model::lemma_written_node(
        after,
        left_block,
        left,
        model::child_span(new_parts, 0, span.upper, span.levels),
    );
    model::lemma_written_node(
        after,
        next,
        right,
        model::child_span(new_parts, 1, span.upper, span.levels),
    );
    model::lemma_double_part(
        after,
        new_parts,
        new_parts[0],
        new_parts[1],
        span.upper,
        span.levels,
        items,
        split,
        node.level,
    );
    lemma_internal_replaced(
        disk,
        old_cache,
        middle_cache,
        new_cache,
        address,
        span,
        node,
        index,
        parts,
        new_parts,
        key,
        change,
        old_next,
        next as int,
        next + 2,
    );
    store::lemma_cow_frame_joins(
        old_cache,
        middle_cache,
        new_cache,
        old_next,
        next as int,
        next + 2,
    );
}

/// Write an internal node whose child at `index` was replaced: to one new block
/// or, if it has too many items now, to two.
#[verifier::spinoff_prover]
#[verifier::rlimit(60)]
fn replace_child(
    dirty_cache: &mut BTreeMap<u64, Vec<u8>>,
    block_address: u64,
    parent: BafsTreeNode,
    bounds: &SubtreeBounds,
    index: usize,
    new_child: u64,
    split: Option<SplitResult>,
    key: BafsKey,
    generation: u64,
    next_free_block: &mut u64,
    freed_blocks: &mut Vec<u64>,
    Ghost(disk): Ghost<Seq<u8>>,
    Ghost(old_cache): Ghost<Map<u64, Vec<u8>>>,
    Ghost(old_next): Ghost<int>,
    Ghost(change): Ghost<Option<Seq<u8>>>,
) -> (result: (u64, Option<SplitResult>))
    requires
        change is Some,
        counts_agree(parent@),
        index < parent.internal_items@.len(),
        child_replaced(
            disk,
            old_cache,
            old(dirty_cache)@,
            block_address,
            bounds.span(),
            parent@,
            index as int,
            parts_of(
                lesser(key, parent.internal_items@[index as int].key),
                new_child,
                split,
                generation,
            ),
            key,
            change,
            old_next,
            *old(next_free_block) as int,
        ),
        *old(next_free_block) + 2 <= u64::MAX,
    ensures
        store::stamped(
            final(dirty_cache)@,
            *old(next_free_block) as int,
            *final(next_free_block) as int,
            generation,
        ),
        store::cow_frame(
            old(dirty_cache)@,
            final(dirty_cache)@,
            *old(next_free_block) as int,
            *final(next_free_block) as int,
        ),
        subtree_replaced(
            disk,
            old_cache,
            final(dirty_cache)@,
            block_address,
            bounds.span(),
            parts_of(lesser(key, bounds.lower), result.0, result.1, generation),
            key,
            change,
            old_next,
            *final(next_free_block) as int,
        ),
        growth::parent_written(
            store::visible_blocks(disk, final(dirty_cache)@),
            parent@,
            index as int,
            key,
            change,
            new_child,
            split,
            generation,
            result.0,
            result.1,
            *old(next_free_block) as int,
            *final(next_free_block) as int,
        ),
        final(freed_blocks)@ == old(freed_blocks)@.push(block_address),
{
    let ghost old_node = parent@;
    let ghost span = bounds.span();
    let ghost parts = parts_of(
        lesser(key, parent.internal_items@[index as int].key),
        new_child,
        split,
        generation,
    );
    let mut node = parent;
    let separator: BafsKey = node.internal_items[index].key;
    let lower: BafsKey = if key.precedes(&separator) {
        key
    } else {
        separator
    };
    node.internal_items.set(
        index,
        BafsInternalItem { key: lower, child_block: new_child, child_generation: generation },
    );
    match &split {
        None => {},
        Some(right) => {
            node.internal_items.insert(
                index + 1,
                BafsInternalItem {
                    key: right.key,
                    child_block: right.child_block,
                    child_generation: generation,
                },
            );
        },
    }
    assert(node.internal_items@ =~= model::splice(
        old_node.internal_items,
        index as int,
        parts,
    ));
    freed_blocks.push(block_address);
    if node.internal_items.len() <= node::INTERNAL_MAX_ITEMS {
        let new_block: u64 = *next_free_block;
        *next_free_block = new_block + 1;
        node.item_count = node.internal_items.len() as u16;
        node.self_block_address = new_block;
        node.generation = generation;
        store::write_tree_node_to_cache(dirty_cache, &node);
        proof {
            assert(store::stamped(dirty_cache@, new_block as int, new_block + 1, generation)) by {
                store::lemma_stamped_one(dirty_cache@, new_block, generation);
            }
            growth::lemma_node_written(
                store::visible_blocks(disk, dirty_cache@),
                new_block,
                node@,
            );
            lemma_internal_replaced_by_one(
                disk,
                old_cache,
                old(dirty_cache)@,
                dirty_cache@,
                block_address,
                span,
                old_node,
                node@,
                index as int,
                parts,
                bounds.lower,
                key,
                change,
                generation,
                old_next,
                new_block,
            );
        }
        (new_block, None)
    } else {
        assert(model::splice(old_node.internal_items, index as int, parts).len() > 90);
        let middle: usize = node.internal_items.len() / 2;
        let right_items: Vec<BafsInternalItem> = node.internal_items.split_off(middle);
        let split_key: BafsKey = right_items[0].key;
        let right_block: u64 = *next_free_block;
        let left_block: u64 = right_block + 1;
        *next_free_block = left_block + 1;
        let right_node = BafsTreeNode {
            node_checksum: 0,
            level: node.level,
            flags: 0,
            item_count: right_items.len() as u16,
            self_block_address: right_block,
            generation,
            leaf_items: Vec::new(),
            internal_items: right_items,
        };
        node.item_count = node.internal_items.len() as u16;
        node.self_block_address = left_block;
        node.generation = generation;
        proof {
            let items = model::splice(old_node.internal_items, index as int, parts);
            assert(node@.internal_items =~= items.take(middle as int));
            assert(right_node@.internal_items =~= items.skip(middle as int));
        }
        write_node_pair(dirty_cache, &node, &right_node, generation);
        let split_result = SplitResult { key: split_key, child_block: right_block };
        proof {
            let after = store::visible_blocks(disk, dirty_cache@);
            growth::lemma_node_written(after, left_block, node@);
            growth::lemma_node_written(after, right_block, right_node@);
            lemma_internal_replaced_by_two(
                disk,
                old_cache,
                old(dirty_cache)@,
                dirty_cache@,
                block_address,
                span,
                old_node,
                node@,
                right_node@,
                middle as int,
                index as int,
                parts,
                bounds.lower,
                key,
                change,
                generation,
                old_next,
                right_block,
                split_result,
            );
        }
        (left_block, Some(split_result))
    }
}

/// The error with which putting `value` under `key` fails, if it does.
pub open spec fn insert_error(
    blocks: Map<u64, Seq<u8>>,
    root: u64,
    key: BafsKey,
    value: Seq<u8>,
) -> Option<BafsError> {
    match model::checked_node(blocks, root, model::root_span()) {
        Err(error) => Some(error),
        Ok(node) => if node.level + 1 >= model::level_limit() {
            Some(BafsError::NotSupported)
        } else {
            match model::leaf_for(blocks, root, model::root_span(), key.rank()) {
                Err(error) => Some(error),
                Ok(items) => if model::leaf_storable(model::leaf_put(items, key, value)) {
                    None
                } else {
                    Some(BafsError::InvalidArgument)
                },
            }
        },
    }
}

/// The error with which deleting `key` fails, if it does.
pub open spec fn delete_error(blocks: Map<u64, Seq<u8>>, root: u64, key: BafsKey) -> Option<
    BafsError,
> {
    match model::tree_get(blocks, root, key) {
        Err(error) => Some(error),
        Ok(None) => Some(BafsError::NotFound),
        Ok(Some(_)) => None,
    }
}

/// The level of the root node.
pub open spec fn root_level(blocks: Map<u64, Seq<u8>>, root: u64) -> nat {
    model::checked_node(blocks, root, model::root_span())->Ok_0.level as nat
}

/// A tree took the place of another one from which it differs in one key's
/// value, where the nodes of the old one lie below `old_next`.
pub open spec fn tree_changed(
    before: Map<u64, Seq<u8>>,
    old_root: u64,
    after: Map<u64, Seq<u8>>,
    new_root: u64,
    key: BafsKey,
    change: Option<Seq<u8>>,
    base: int,
    old_next: int,
    new_next: int,
) -> bool {
    model::tree_confined(before, old_root, base, old_next) ==> {
        &&& model::tree_confined(after, new_root, base, new_next)
        &&& forall|target: BafsKey| #[trigger]
            model::tree_get(after, new_root, target) == model::changed(
                model::tree_get(before, old_root, target),
                target,
                key,
                change,
            )
    }
}

/// A tree was replaced, copy-on-write, by one that differs from it in one
/// key's value.
pub open spec fn tree_replaced(
    disk: Seq<u8>,
    old_cache: Map<u64, Vec<u8>>,
    new_cache: Map<u64, Vec<u8>>,
    old_root: u64,
    new_root: u64,
    key: BafsKey,
    change: Option<Seq<u8>>,
    old_next: int,
    new_next: int,
) -> bool {
    let before = store::visible_blocks(disk, old_cache);
    let after = store::visible_blocks(disk, new_cache);
    &&& store::cache_valid(new_cache)
    &&& store::cow_frame(old_cache, new_cache, old_next, new_next)
    &&& old_next < new_next <= old_next + 2 * root_level(before, old_root) + 3
    &&& new_root == new_next - 1
    &&& model::checked_node(after, new_root, model::root_span()) is Ok
    &&& root_level(after, new_root) <= root_level(before, old_root) + 1
    &&& forall|base: int| #[trigger]
        tree_changed(
            before,
            old_root,
            after,
            new_root,
            key,
            change,
            base,
            old_next,
            new_next,
        )
}

/// Put `value` under `key` into the subtree at `block_address`. Returns the
/// block of the subtree's new top node and, if that node had to be split, its
/// new right-hand sibling.
#[verifier::spinoff_prover]
#[verifier::rlimit(60)]
fn insert_recursive<D: BlockDevice>(
    device: &D,
    dirty_cache: &mut BTreeMap<u64, Vec<u8>>,
    block_address: u64,
    bounds: &SubtreeBounds,
    key: BafsKey,
    value: Vec<u8>,
    generation: u64,
    next_free_block: &mut u64,
    freed_blocks: &mut Vec<u64>,
) -> (result: Result<(u64, Option<SplitResult>), BafsError>)
    requires
        store::cache_valid(old(dirty_cache)@),
        key.rank() < bounds.span().upper,
        *old(next_free_block) + 2 * bounds.levels <= u64::MAX,
    ensures
        store::stamped(
            final(dirty_cache)@,
            *old(next_free_block) as int,
            *final(next_free_block) as int,
            generation,
        ),
        ({
            let before = store::visible_blocks(device.contents(), old(dirty_cache)@);
            let leaf = model::leaf_for(before, block_address, bounds.span(), key.rank());
            match result {
                Ok((left, split)) => {
                    &&& leaf is Ok
                    &&& model::leaf_storable(model::leaf_put(leaf->Ok_0, key, value@))
                    &&& subtree_replaced(
                        device.contents(),
                        old(dirty_cache)@,
                        final(dirty_cache)@,
                        block_address,
                        bounds.span(),
                        parts_of(lesser(key, bounds.lower), left, split, generation),
                        key,
                        Some(value@),
                        *old(next_free_block) as int,
                        *final(next_free_block) as int,
                    )
                    &&& growth::path_written(
                        before,
                        store::visible_blocks(device.contents(), final(dirty_cache)@),
                        block_address,
                        bounds.span(),
                        key,
                        Some(value@),
                        generation,
                        left,
                        split,
                        *old(next_free_block) as int,
                        *final(next_free_block) as int,
                    )
                    &&& final(freed_blocks)@ == old(freed_blocks)@ + model::path_to(
                        before,
                        block_address,
                        bounds.span(),
                        key.rank(),
                    )
                },
                Err(error) => {
                    &&& final(dirty_cache)@ == old(dirty_cache)@
                    &&& *final(next_free_block) == *old(next_free_block)
                    &&& final(freed_blocks)@ == old(freed_blocks)@
                    &&& match leaf {
                        Err(expected) => error == expected,
                        Ok(items) => error == BafsError::InvalidArgument && !model::leaf_storable(
                            model::leaf_put(items, key, value@),
                        ),
                    } || error == BafsError::InputOutputError && !device.reliable()
                        && !model::path_cached(
                        before,
                        old(dirty_cache)@.dom(),
                        block_address,
                        bounds.span(),
                        key.rank(),
                    )
                },
            }
        }),
    decreases bounds.levels,
{
    let ghost disk = device.contents();
    let ghost before = store::visible_blocks(disk, dirty_cache@);
    proof {
        reveal(model::path_cached);
    }
    let ghost span = bounds.span();
    let node = match read_checked_node(device, dirty_cache, block_address, bounds) {
        Ok(node) => node,
        Err(error) => {
            return Err(error);
        },
    };
    if node.level == 0 {
        return insert_into_leaf(
            dirty_cache,
            block_address,
            node,
            bounds,
            key,
            value,
            generation,
            next_free_block,
            freed_blocks,
            Ghost(disk),
        );
    }
    let index: usize = find_child_index_for_key(&node.internal_items, &key);
    let child_block: u64 = node.internal_items[index].child_block;
    let child_bounds = bounds.child(&node.internal_items, index, node.level);
    proof {
        model::lemma_child_index(node.internal_items@, key.rank());
    }
    let ghost node_model = node@;
    let ghost new_value = value@;
    match insert_recursive(
        device,
        dirty_cache,
        child_block,
        &child_bounds,
        key,
        value,
        generation,
        next_free_block,
        freed_blocks,
    ) {
        Err(error) => Err(error),
        Ok((new_child, split)) => {
            let ghost below = model::path_to(before, child_block, child_bounds.span(), key.rank());
            let ghost middle_cache = dirty_cache@;
            let ghost middle_next = *next_free_block as int;
            let replaced = replace_child(
                dirty_cache,
                block_address,
                node,
                bounds,
                index,
                new_child,
                split,
                key,
                generation,
                next_free_block,
                freed_blocks,
                Ghost(disk),
                Ghost(old(dirty_cache)@),
                Ghost(*old(next_free_block) as int),
                Ghost(Some(new_value)),
            );
            proof {
                let middle = store::visible_blocks(disk, middle_cache);
                let after = store::visible_blocks(disk, dirty_cache@);
                model::lemma_cow_frame_agrees(
                    disk,
                    middle_cache,
                    dirty_cache@,
                    middle_next,
                    *next_free_block as int,
                );
                growth::lemma_path_written_kept(
                    before,
                    middle,
                    after,
                    child_block,
                    child_bounds.span(),
                    key,
                    Some(new_value),
                    generation,
                    new_child,
                    split,
                    *old(next_free_block) as int,
                    middle_next,
                );
                assert(growth::parent_written(
                    after,
                    node_model,
                    index as int,
                    key,
                    Some(new_value),
                    new_child,
                    split,
                    generation,
                    replaced.0,
                    replaced.1,
                    middle_next,
                    *next_free_block as int,
                ));
                assert((old(freed_blocks)@ + below).push(block_address) =~= old(freed_blocks)@
                    + below.push(block_address));
                store::lemma_stamped_joins(
                    middle_cache,
                    dirty_cache@,
                    *old(next_free_block) as int,
                    middle_next,
                    *next_free_block as int,
                    generation,
                );
            }
            Ok(replaced)
        },
    }
}

/// Lookups below a single part with the span of a whole tree.
proof fn lemma_root_part(
    blocks: Map<u64, Seq<u8>>,
    parts: Seq<BafsInternalItem>,
    base: int,
    bound: int,
)
    requires
        parts.len() == 1,
        parts[0].key.rank() == 0,
    ensures
        forall|target: BafsKey| #[trigger]
            model::tree_get(blocks, parts[0].child_block, target) == model::siblings_get(
                blocks,
                parts,
                model::root_span().upper,
                model::root_span().levels,
                target,
            ),
        model::siblings_confined(
            blocks,
            parts,
            model::root_span().upper,
            model::root_span().levels,
            base,
            bound,
        ) ==> model::tree_confined(blocks, parts[0].child_block, base, bound),
        model::child_span(parts, 0, model::root_span().upper, model::root_span().levels)
            == model::root_span(),
{
    let upper = model::root_span().upper;
    let levels = model::root_span().levels;
    assert(model::child_span(parts, 0, upper, levels) == model::root_span());
    assert forall|target: BafsKey| #[trigger]
        model::tree_get(blocks, parts[0].child_block, target) == model::siblings_get(
            blocks,
            parts,
            upper,
            levels,
            target,
        ) by {
        model::lemma_child_index_is(parts, target.rank(), 0);
    }
    if model::siblings_confined(blocks, parts, upper, levels, base, bound) {
        assert(parts[0].child_block == parts[0].child_block);
    }
}

proof fn lemma_root_replaced_by_one(
    disk: Seq<u8>,
    old_cache: Map<u64, Vec<u8>>,
    new_cache: Map<u64, Vec<u8>>,
    old_root: u64,
    parts: Seq<BafsInternalItem>,
    key: BafsKey,
    change: Option<Seq<u8>>,
    old_next: int,
    new_next: int,
)
    requires
        subtree_replaced(
            disk,
            old_cache,
            new_cache,
            old_root,
            model::root_span(),
            parts,
            key,
            change,
            old_next,
            new_next,
        ),
        parts.len() == 1,
        parts[0].key.rank() == 0,
    ensures
        tree_replaced(
            disk,
            old_cache,
            new_cache,
            old_root,
            parts[0].child_block,
            key,
            change,
            old_next,
            new_next,
        ),
        root_level(store::visible_blocks(disk, new_cache), parts[0].child_block) == root_level(
            store::visible_blocks(disk, old_cache),
            old_root,
        ),
        new_next <= old_next + 2 * root_level(store::visible_blocks(disk, old_cache), old_root) + 2,
{
    let before = store::visible_blocks(disk, old_cache);
    let after = store::visible_blocks(disk, new_cache);
    let new_root = parts[0].child_block;
    lemma_root_part(after, parts, 0, 0);
    assert forall|base: int| #[trigger]
        tree_changed(
            before,
            old_root,
            after,
            new_root,
            key,
            change,
            base,
            old_next,
            new_next,
        ) by {
        lemma_root_part(after, parts, base, new_next);
        assert(model::subtree_changed(
            before,
            old_root,
            model::root_span(),
            after,
            parts,
            key,
            change,
            base,
            old_next,
            new_next,
        ));
    }
}

/// A new root above the two halves of the old one.
#[verifier::spinoff_prover]
#[verifier::rlimit(60)]
proof fn lemma_root_replaced_by_two(
    disk: Seq<u8>,
    old_cache: Map<u64, Vec<u8>>,
    middle_cache: Map<u64, Vec<u8>>,
    new_cache: Map<u64, Vec<u8>>,
    old_root: u64,
    parts: Seq<BafsInternalItem>,
    written: NodeModel,
    key: BafsKey,
    change: Option<Seq<u8>>,
    old_next: int,
    next: u64,
)
    requires
        subtree_replaced(
            disk,
            old_cache,
            middle_cache,
            old_root,
            model::root_span(),
            parts,
            key,
            change,
            old_next,
            next as int,
        ),
        parts.len() == 2,
        parts[0].key.rank() == 0,
        store::cache_valid(new_cache),
        store::cow_frame(middle_cache, new_cache, next as int, next + 1),
        store::visible_blocks(disk, new_cache) == store::visible_blocks(disk, middle_cache).insert(
            next,
            node::node_block_bytes(written),
        ),
        ({
            let before = store::visible_blocks(disk, old_cache);
            let middle = store::visible_blocks(disk, middle_cache);
            let span = model::child_span(
                parts,
                0,
                model::root_span().upper,
                model::root_span().levels,
            );
            let left = model::checked_node(middle, parts[0].child_block, span)->Ok_0;
            let first = written.internal_items[0].key;
            &&& written.level == root_level(before, old_root) + 1
            &&& written.level < model::level_limit()
            &&& written.internal_items.len() == 2
            &&& written.item_count == 2
            &&& written.leaf_items.len() == 0
            &&& first == if left.level == 0 {
                left.leaf_items[0].key
            } else {
                left.internal_items[0].key
            }
            &&& written.internal_items[0].child_block == parts[0].child_block
            &&& written.internal_items[1].child_block == parts[1].child_block
            &&& written.internal_items[1].key == parts[1].key
        }),
    ensures
        tree_replaced(
            disk,
            old_cache,
            new_cache,
            old_root,
            next,
            key,
            change,
            old_next,
            next + 1,
        ),
{
    let before = store::visible_blocks(disk, old_cache);
    let middle = store::visible_blocks(disk, middle_cache);
    let after = store::visible_blocks(disk, new_cache);
    let upper = model::root_span().upper;
    let levels = model::root_span().levels;
    let level = written.level as nat;
    let items = written.internal_items;
    let left_span = model::child_span(parts, 0, upper, levels);
    let right_span = model::child_span(parts, 1, upper, levels);
    let new_left_span = model::child_span(items, 0, upper, level);
    let new_right_span = model::child_span(items, 1, upper, level);
    let left = model::checked_node(middle, parts[0].child_block, left_span)->Ok_0;
    let right = model::checked_node(middle, parts[1].child_block, right_span)->Ok_0;
    assert(parts[0].child_block == parts[0].child_block);
    assert(parts[1].child_block == parts[1].child_block);
    lemma_tighter_lower(left, left_span, new_left_span);
    assert(model::node_ok(right, new_right_span));
    let ranks = model::separator_ranks(items);
    assert(ranks =~= seq![items[0].key.rank(), items[1].key.rank()]);
    assert(model::separator_ranks(parts) =~= seq![parts[0].key.rank(), parts[1].key.rank()]);
    assert(model::separator_ranks(parts)[1] < upper);
    model::lemma_written_node(after, next, written, model::root_span());
    model::lemma_cow_frame_agrees(disk, middle_cache, new_cache, next as int, next + 1);
    assert forall|base: int| #[trigger]
        tree_changed(
            before,
            old_root,
            after,
            next,
            key,
            change,
            base,
            old_next,
            next + 1,
        ) by {
        if model::tree_confined(before, old_root, base, old_next) {
            assert(model::subtree_changed(
                before,
                old_root,
                model::root_span(),
                middle,
                parts,
                key,
                change,
                base,
                old_next,
                next as int,
            ));
            assert(model::confined(middle, parts[0].child_block, left_span, base, next as int));
            assert(model::confined(middle, parts[1].child_block, right_span, base, next as int));
            model::lemma_span_irrelevant(
                middle,
                parts[0].child_block,
                left_span,
                new_left_span,
                base,
                next as int,
            );
            model::lemma_span_irrelevant(
                middle,
                parts[1].child_block,
                right_span,
                new_right_span,
                base,
                next as int,
            );
            assert(model::siblings_confined(middle, items, upper, level, base, next as int));
            assert(model::agree(middle, after, base, next as int));
            model::lemma_siblings_agree(
                middle,
                after,
                items,
                upper,
                level,
                base,
                next as int,
                next + 1,
            );
            model::lemma_internal_node(after, next, model::root_span(), base, next + 1);
            assert forall|target: BafsKey| #[trigger]
                model::tree_get(after, next, target) == model::changed(
                    model::tree_get(before, old_root, target),
                    target,
                    key,
                    change,
                ) by {
                assert(model::subtree_get(after, next, model::root_span(), target)
                    == model::siblings_get(after, items, upper, level, target));
                assert(model::siblings_get(after, items, upper, level, target)
                    == model::siblings_get(middle, items, upper, level, target));
                assert(target.rank() < upper);
                if target.rank() < parts[1].key.rank() {
                    model::lemma_child_index_is(items, target.rank(), 0);
                    model::lemma_child_index_is(parts, target.rank(), 0);
                    assert(model::subtree_get(middle, parts[0].child_block, left_span, target)
                        == model::subtree_get(
                        middle,
                        parts[0].child_block,
                        new_left_span,
                        target,
                    ));
                } else {
                    model::lemma_child_index_is(items, target.rank(), 1);
                    model::lemma_child_index_is(parts, target.rank(), 1);
                    assert(model::subtree_get(middle, parts[1].child_block, right_span, target)
                        == model::subtree_get(
                        middle,
                        parts[1].child_block,
                        new_right_span,
                        target,
                    ));
                }
                assert(model::siblings_get(middle, parts, upper, levels, target)
                    == model::changed(
                    model::subtree_get(before, old_root, model::root_span(), target),
                    target,
                    key,
                    change,
                ));
            }
        }
    }
    store::lemma_cow_frame_joins(
        old_cache,
        middle_cache,
        new_cache,
        old_next,
        next as int,
        next + 1,
    );
}

/// A node may stand where the lower bound is its own first key.
proof fn lemma_tighter_lower(node: NodeModel, span: Span, tighter: Span)
    requires
        model::node_ok(node, span),
        node.level == 0 ==> node.leaf_items.len() > 0,
        tighter.lower == if node.level == 0 {
            node.leaf_items[0].key.rank()
        } else {
            node.internal_items[0].key.rank()
        },
        tighter.upper == span.upper,
        node.level < tighter.levels,
    ensures
        model::node_ok(node, tighter),
        tighter.lower < tighter.upper,
{
    if node.level == 0 {
        let ranks = model::leaf_ranks(node.leaf_items);
        assert(ranks[0] == node.leaf_items[0].key.rank());
    } else {
        let ranks = model::separator_ranks(node.internal_items);
        assert(ranks[0] == node.internal_items[0].key.rank());
    }
}

/// Addresses were at most appended to a list.
pub open spec fn extends(before: Seq<u64>, after: Seq<u64>) -> bool {
    &&& before.len() <= after.len()
    &&& forall|i: int| 0 <= i < before.len() ==> #[trigger] after[i] == before[i]
}

/// Where a tree and the blocks for its nodes stand between two changes.
pub ghost struct TreeStage {
    /// The blocks that were written since the last commit.
    pub cache: Map<u64, Vec<u8>>,
    /// The next block for a node.
    pub next: u64,
    /// The blocks that were superseded.
    pub freed: Seq<u64>,
    /// The root.
    pub root: u64,
}

/// Putting `value` under `key` leads from one stage to another.
pub open spec fn inserted(
    disk: Seq<u8>,
    reliable: bool,
    from: TreeStage,
    to: TreeStage,
    key: BafsKey,
    value: Seq<u8>,
    result: Result<u64, BafsError>,
) -> bool {
    &&& insertion_outcome(
        disk,
        from.cache,
        to.cache,
        reliable,
        from.root,
        key,
        value,
        from.next,
        to.next,
        from.freed,
        to.freed,
        result,
    )
    &&& result matches Ok(root) ==> to.root == root
}

/// Deleting `key` leads from one stage to another.
pub open spec fn deleted(
    disk: Seq<u8>,
    reliable: bool,
    from: TreeStage,
    to: TreeStage,
    key: BafsKey,
    result: Result<u64, BafsError>,
) -> bool {
    &&& deletion_outcome(
        disk,
        from.cache,
        to.cache,
        reliable,
        from.root,
        key,
        from.next,
        to.next,
        from.freed,
        to.freed,
        result,
    )
    &&& result matches Ok(root) ==> to.root == root
}

/// The outcome of putting `value` under `key`.
pub open spec fn insertion_outcome(
    disk: Seq<u8>,
    old_cache: Map<u64, Vec<u8>>,
    new_cache: Map<u64, Vec<u8>>,
    reliable: bool,
    root: u64,
    key: BafsKey,
    value: Seq<u8>,
    old_next: u64,
    new_next: u64,
    old_freed: Seq<u64>,
    new_freed: Seq<u64>,
    result: Result<u64, BafsError>,
) -> bool {
    let before = store::visible_blocks(disk, old_cache);
    match result {
        Ok(new_root) => {
            &&& insert_error(before, root, key, value) is None
            &&& tree_replaced(
                disk,
                old_cache,
                new_cache,
                root,
                new_root,
                key,
                Some(value),
                old_next as int,
                new_next as int,
            )
            &&& new_next == old_next + growth::insertion_cost(before, root, key, value)
            &&& fanout::gains(
                before,
                root,
                store::visible_blocks(disk, new_cache),
                new_root,
                old_next as int,
                new_next as int,
                1,
            )
            &&& new_freed == old_freed + model::path_to(
                before,
                root,
                model::root_span(),
                key.rank(),
            )
        },
        Err(error) => {
            &&& new_cache == old_cache
            &&& new_next == old_next
            &&& new_freed == old_freed
            &&& insert_error(before, root, key, value) == Some(error) || error
                == BafsError::InputOutputError && !reliable && !model::path_cached(
                before,
                old_cache.dom(),
                root,
                model::root_span(),
                key.rank(),
            )
        },
    }
}

/// The outcome of deleting `key`.
pub open spec fn deletion_outcome(
    disk: Seq<u8>,
    old_cache: Map<u64, Vec<u8>>,
    new_cache: Map<u64, Vec<u8>>,
    reliable: bool,
    root: u64,
    key: BafsKey,
    old_next: u64,
    new_next: u64,
    old_freed: Seq<u64>,
    new_freed: Seq<u64>,
    result: Result<u64, BafsError>,
) -> bool {
    let before = store::visible_blocks(disk, old_cache);
    match result {
        Ok(new_root) => {
            &&& delete_error(before, root, key) is None
            &&& tree_replaced(
                disk,
                old_cache,
                new_cache,
                root,
                new_root,
                key,
                None,
                old_next as int,
                new_next as int,
            )
            &&& root_level(store::visible_blocks(disk, new_cache), new_root) == root_level(
                before,
                root,
            )
            &&& new_next == old_next + growth::deletion_cost(before, root, key)
            &&& new_next <= old_next + root_level(before, root) + 1
            &&& fanout::gains(
                before,
                root,
                store::visible_blocks(disk, new_cache),
                new_root,
                old_next as int,
                new_next as int,
                0,
            )
            &&& new_freed == old_freed + model::path_to(
                before,
                root,
                model::root_span(),
                key.rank(),
            )
        },
        Err(error) => {
            &&& new_cache == old_cache
            &&& new_next == old_next
            &&& new_freed == old_freed
            &&& delete_error(before, root, key) == Some(error) || error
                == BafsError::InputOutputError && !reliable && !model::path_cached(
                before,
                old_cache.dom(),
                root,
                model::root_span(),
                key.rank(),
            )
        },
    }
}

/// How many nodes an insertion wrote, and how far the tree has grown by it.
proof fn lemma_insertion_measured(
    disk: Seq<u8>,
    old_cache: Map<u64, Vec<u8>>,
    new_cache: Map<u64, Vec<u8>>,
    root: u64,
    key: BafsKey,
    value: Seq<u8>,
    generation: u64,
    new_root: u64,
    old_next: int,
    new_next: int,
)
    requires
        growth::insertion_written(
            store::visible_blocks(disk, old_cache),
            store::visible_blocks(disk, new_cache),
            root,
            key,
            value,
            generation,
            new_root,
            old_next,
            new_next,
        ),
        store::cow_frame(old_cache, new_cache, old_next, new_next),
        root_level(store::visible_blocks(disk, old_cache), root) + 1 < model::level_limit(),
    ensures
        new_next == old_next + growth::insertion_cost(
            store::visible_blocks(disk, old_cache),
            root,
            key,
            value,
        ),
        fanout::gains(
            store::visible_blocks(disk, old_cache),
            root,
            store::visible_blocks(disk, new_cache),
            new_root,
            old_next,
            new_next,
            1,
        ),
{
    let before = store::visible_blocks(disk, old_cache);
    let after = store::visible_blocks(disk, new_cache);
    model::lemma_cow_frame_agrees(disk, old_cache, new_cache, old_next, new_next);
    assert(model::agree(before, after, 0, old_next));
    growth::lemma_insertion_cost(
        before,
        after,
        root,
        key,
        value,
        generation,
        new_root,
        old_next,
        new_next,
    );
    fanout::lemma_insertion_gains(
        before,
        after,
        root,
        key,
        value,
        generation,
        new_root,
        old_next,
        new_next,
    );
}

/// How many nodes a deletion wrote, and that the tree has not grown by it.
proof fn lemma_deletion_measured(
    disk: Seq<u8>,
    old_cache: Map<u64, Vec<u8>>,
    new_cache: Map<u64, Vec<u8>>,
    root: u64,
    key: BafsKey,
    generation: u64,
    new_root: u64,
    old_next: int,
    new_next: int,
)
    requires
        growth::deletion_written(
            store::visible_blocks(disk, old_cache),
            store::visible_blocks(disk, new_cache),
            root,
            key,
            generation,
            new_root,
            old_next,
            new_next,
        ),
        store::cow_frame(old_cache, new_cache, old_next, new_next),
        model::checked_node(
            store::visible_blocks(disk, old_cache),
            root,
            model::root_span(),
        ) is Ok,
    ensures
        new_next == old_next + growth::deletion_cost(
            store::visible_blocks(disk, old_cache),
            root,
            key,
        ),
        new_next <= old_next + root_level(store::visible_blocks(disk, old_cache), root) + 1,
        fanout::gains(
            store::visible_blocks(disk, old_cache),
            root,
            store::visible_blocks(disk, new_cache),
            new_root,
            old_next,
            new_next,
            0,
        ),
{
    let before = store::visible_blocks(disk, old_cache);
    let after = store::visible_blocks(disk, new_cache);
    model::lemma_cow_frame_agrees(disk, old_cache, new_cache, old_next, new_next);
    assert(model::agree(before, after, 0, old_next));
    growth::lemma_deletion_cost(
        before,
        after,
        root,
        key,
        generation,
        new_root,
        old_next,
        new_next,
    );
    growth::lemma_cost_bounds(before, root, model::root_span(), key, Seq::empty());
    fanout::lemma_deletion_gains(
        before,
        after,
        root,
        key,
        generation,
        new_root,
        old_next,
        new_next,
    );
}

/// Put `value` under `key`, where the key may be there already. Returns the
/// address of the new root.
///
/// New nodes are taken from `next_free_block` on. The addresses of the nodes
/// that the new ones supersede are appended to `freed_blocks`.
#[verifier::spinoff_prover]
#[verifier::rlimit(60)]
pub fn insert_into_tree<D: BlockDevice>(
    device: &D,
    dirty_cache: &mut BTreeMap<u64, Vec<u8>>,
    root_block_address: u64,
    key: BafsKey,
    value: Vec<u8>,
    generation: u64,
    next_free_block: &mut u64,
    freed_blocks: &mut Vec<u64>,
) -> (result: Result<u64, BafsError>)
    requires
        store::cache_valid(old(dirty_cache)@),
        *old(next_free_block) + 512 <= u64::MAX,
    ensures
        store::stamped(
            final(dirty_cache)@,
            *old(next_free_block) as int,
            *final(next_free_block) as int,
            generation,
        ),
        insertion_outcome(
            device.contents(),
            old(dirty_cache)@,
            final(dirty_cache)@,
            device.reliable(),
            root_block_address,
            key,
            value@,
            *old(next_free_block),
            *final(next_free_block),
            old(freed_blocks)@,
            final(freed_blocks)@,
            result,
        ),
        result matches Ok(new_root) ==> growth::insertion_written(
            store::visible_blocks(device.contents(), old(dirty_cache)@),
            store::visible_blocks(device.contents(), final(dirty_cache)@),
            root_block_address,
            key,
            value@,
            generation,
            new_root,
            *old(next_free_block) as int,
            *final(next_free_block) as int,
        ),
{
    let ghost disk = device.contents();
    let ghost new_value = value@;
    proof {
        reveal(model::path_cached);
    }
    let bounds = SubtreeBounds::whole_tree();
    let root_level: u8 = match read_checked_node(device, dirty_cache, root_block_address, &bounds) {
        Ok(node) => node.level,
        Err(error) => {
            return Err(error);
        },
    };
    if root_level >= 254 {
        return Err(BafsError::NotSupported);
    }
    match insert_recursive(
        device,
        dirty_cache,
        root_block_address,
        &bounds,
        key,
        value,
        generation,
        next_free_block,
        freed_blocks,
    ) {
        Err(error) => Err(error),
        Ok((new_root_address, split_result)) => {
            let ghost parts = parts_of(
                lesser(key, bounds.lower),
                new_root_address,
                split_result,
                generation,
            );
            match split_result {
                None => {
                    proof {
                        lemma_root_replaced_by_one(
                            disk,
                            old(dirty_cache)@,
                            dirty_cache@,
                            root_block_address,
                            parts,
                            key,
                            Some(new_value),
                            *old(next_free_block) as int,
                            *next_free_block as int,
                        );
                        growth::lemma_one_root_written(
                            store::visible_blocks(disk, old(dirty_cache)@),
                            store::visible_blocks(disk, dirty_cache@),
                            root_block_address,
                            key,
                            new_value,
                            generation,
                            new_root_address,
                            *old(next_free_block) as int,
                            *next_free_block as int,
                        );
                    }
                    proof {
                        lemma_insertion_measured(
                            disk,
                            old(dirty_cache)@,
                            dirty_cache@,
                            root_block_address,
                            key,
                            new_value,
                            generation,
                            new_root_address,
                            *old(next_free_block) as int,
                            *next_free_block as int,
                        );
                    }
                    Ok(new_root_address)
                },
                Some(promoted) => {
                    let ghost middle_cache = dirty_cache@;
                    let left_bounds = SubtreeBounds {
                        lower: bounds.lower,
                        upper: Some(promoted.key),
                        levels: bounds.levels,
                    };
                    proof {
                        assert(parts[0].child_block == new_root_address);
                        assert(left_bounds.span() == model::child_span(
                            parts,
                            0,
                            model::root_span().upper,
                            model::root_span().levels,
                        ));
                    }
                    let left = match read_checked_node(
                        device,
                        dirty_cache,
                        new_root_address,
                        &left_bounds,
                    ) {
                        Ok(node) => node,
                        Err(error) => {
                            assert(false);
                            return Err(error);
                        },
                    };
                    assert(left@.leaf_items.len() == left.leaf_items@.len());
                    let left_first_key: BafsKey = if left.level == 0 {
                        left.leaf_items[0].key
                    } else {
                        left.internal_items[0].key
                    };
                    let new_root_block: u64 = *next_free_block;
                    *next_free_block = new_root_block + 1;
                    let mut items: Vec<BafsInternalItem> = Vec::new();
                    items.push(
                        BafsInternalItem {
                            key: left_first_key,
                            child_block: new_root_address,
                            child_generation: generation,
                        },
                    );
                    items.push(
                        BafsInternalItem {
                            key: promoted.key,
                            child_block: promoted.child_block,
                            child_generation: generation,
                        },
                    );
                    let new_root = BafsTreeNode {
                        node_checksum: 0,
                        level: left.level + 1,
                        flags: 0,
                        item_count: 2,
                        self_block_address: new_root_block,
                        generation,
                        leaf_items: Vec::new(),
                        internal_items: items,
                    };
                    store::write_tree_node_to_cache(dirty_cache, &new_root);
                    proof {
                        store::lemma_stamped_one(dirty_cache@, new_root_block, generation);
                        store::lemma_stamped_joins(
                            middle_cache,
                            dirty_cache@,
                            *old(next_free_block) as int,
                            new_root_block as int,
                            new_root_block + 1,
                            generation,
                        );
                        assert(new_root@.internal_items =~= parts_of(
                            left_first_key,
                            new_root_address,
                            split_result,
                            generation,
                        ));
                        growth::lemma_new_root_written(
                            disk,
                            store::visible_blocks(disk, old(dirty_cache)@),
                            middle_cache,
                            dirty_cache@,
                            root_block_address,
                            key,
                            new_value,
                            generation,
                            new_root_address,
                            promoted,
                            new_root@,
                            *old(next_free_block) as int,
                            new_root_block,
                        );
                        lemma_root_replaced_by_two(
                            disk,
                            old(dirty_cache)@,
                            middle_cache,
                            dirty_cache@,
                            root_block_address,
                            parts,
                            new_root@,
                            key,
                            Some(new_value),
                            *old(next_free_block) as int,
                            new_root_block,
                        );
                    }
                    proof {
                        lemma_insertion_measured(
                            disk,
                            old(dirty_cache)@,
                            dirty_cache@,
                            root_block_address,
                            key,
                            new_value,
                            generation,
                            new_root_block,
                            *old(next_free_block) as int,
                            *next_free_block as int,
                        );
                    }
                    Ok(new_root_block)
                },
            }
        },
    }
}

proof fn lemma_remove_size(items: Seq<LeafEntry>, position: int)
    requires
        0 <= position < items.len(),
    ensures
        node::leaf_size(items.remove(position)) <= node::leaf_size(items),
{
    let result = items.remove(position);
    node::lemma_values_len_cut(result, position);
    node::lemma_values_len_cut(items, position);
    node::lemma_values_len_cut(items.skip(position), 1);
    assert(result.take(position) =~= items.take(position));
    assert(result.skip(position) =~= items.skip(position).skip(1));
}

proof fn lemma_leaf_shrunk(
    disk: Seq<u8>,
    old_cache: Map<u64, Vec<u8>>,
    new_cache: Map<u64, Vec<u8>>,
    address: u64,
    span: Span,
    leaf: NodeModel,
    written: NodeModel,
    lower: BafsKey,
    key: BafsKey,
    generation: u64,
    next: u64,
)
    requires
        store::cache_valid(new_cache),
        new_cache.contains_key(next),
        store::cow_frame(old_cache, new_cache, next as int, next + 1),
        store::visible_blocks(disk, new_cache) == store::visible_blocks(disk, old_cache).insert(
            next,
            node::node_block_bytes(written),
        ),
        model::checked_node(store::visible_blocks(disk, old_cache), address, span) == Ok::<
            NodeModel,
            BafsError,
        >(leaf),
        leaf.level == 0,
        model::leaf_get(leaf.leaf_items, key) is Some,
        written.level == 0,
        written.leaf_items == model::leaf_remove(leaf.leaf_items, key),
        written.item_count == written.leaf_items.len(),
        written.internal_items.len() == 0,
        node::leaf_size(written.leaf_items) <= 4096,
        span.lower == lower.rank(),
    ensures
        subtree_replaced(
            disk,
            old_cache,
            new_cache,
            address,
            span,
            parts_of(lesser(key, lower), next, None, generation),
            key,
            None,
            next as int,
            next + 1,
        ),
{
    let before = store::visible_blocks(disk, old_cache);
    let after = store::visible_blocks(disk, new_cache);
    let position = model::lower_bound(model::leaf_ranks(leaf.leaf_items), key.rank());
    model::lemma_lower_bound(model::leaf_ranks(leaf.leaf_items), key.rank());
    assert(model::leaf_ranks(leaf.leaf_items)[position] == key.rank());
    assert(lesser(key, lower) == lower);
    let parts = parts_of(lower, next, None, generation);
    model::lemma_leaf_remove(leaf.leaf_items, key, span.lower, span.upper);
    model::lemma_written_node(
        after,
        next,
        written,
        model::child_span(parts, 0, span.upper, span.levels),
    );
    model::lemma_single_leaf(
        after,
        parts,
        parts[0],
        span.upper,
        span.levels,
        written.leaf_items,
    );
    lemma_leaf_changed(
        before,
        after,
        address,
        span,
        leaf,
        written.leaf_items,
        parts,
        key,
        None,
        next as int,
        next + 1,
    );
    assert(model::separator_ranks(parts) =~= seq![lower.rank()]);
}

/// Delete `target_key` from the subtree at `block_address`. Returns the block
/// of the subtree's new top node.
#[verifier::spinoff_prover]
#[verifier::rlimit(60)]
fn delete_recursive<D: BlockDevice>(
    device: &D,
    dirty_cache: &mut BTreeMap<u64, Vec<u8>>,
    block_address: u64,
    bounds: &SubtreeBounds,
    target_key: BafsKey,
    generation: u64,
    next_free_block: &mut u64,
    freed_blocks: &mut Vec<u64>,
) -> (result: Result<u64, BafsError>)
    requires
        store::cache_valid(old(dirty_cache)@),
        target_key.rank() < bounds.span().upper,
        *old(next_free_block) + 2 * bounds.levels <= u64::MAX,
    ensures
        store::stamped(
            final(dirty_cache)@,
            *old(next_free_block) as int,
            *final(next_free_block) as int,
            generation,
        ),
        ({
            let before = store::visible_blocks(device.contents(), old(dirty_cache)@);
            let found = model::subtree_get(before, block_address, bounds.span(), target_key);
            match result {
                Ok(new_block) => {
                    &&& found is Ok
                    &&& found->Ok_0 is Some
                    &&& subtree_replaced(
                        device.contents(),
                        old(dirty_cache)@,
                        final(dirty_cache)@,
                        block_address,
                        bounds.span(),
                        parts_of(lesser(target_key, bounds.lower), new_block, None, generation),
                        target_key,
                        None,
                        *old(next_free_block) as int,
                        *final(next_free_block) as int,
                    )
                    &&& growth::path_written(
                        before,
                        store::visible_blocks(device.contents(), final(dirty_cache)@),
                        block_address,
                        bounds.span(),
                        target_key,
                        None,
                        generation,
                        new_block,
                        None,
                        *old(next_free_block) as int,
                        *final(next_free_block) as int,
                    )
                    &&& final(freed_blocks)@ == old(freed_blocks)@ + model::path_to(
                        before,
                        block_address,
                        bounds.span(),
                        target_key.rank(),
                    )
                },
                Err(error) => {
                    &&& final(dirty_cache)@ == old(dirty_cache)@
                    &&& *final(next_free_block) == *old(next_free_block)
                    &&& final(freed_blocks)@ == old(freed_blocks)@
                    &&& match found {
                        Err(expected) => error == expected,
                        Ok(value) => error == BafsError::NotFound && value is None,
                    } || error == BafsError::InputOutputError && !device.reliable()
                        && !model::path_cached(
                        before,
                        old(dirty_cache)@.dom(),
                        block_address,
                        bounds.span(),
                        target_key.rank(),
                    )
                },
            }
        }),
    decreases bounds.levels,
{
    let ghost disk = device.contents();
    let ghost before = store::visible_blocks(disk, dirty_cache@);
    proof {
        reveal(model::path_cached);
    }
    let mut node = match read_checked_node(device, dirty_cache, block_address, bounds) {
        Ok(node) => node,
        Err(error) => {
            return Err(error);
        },
    };
    let ghost old_node = node@;
    if node.level == 0 {
        let position: usize = find_leaf_position(&node.leaf_items, &target_key);
        if position >= node.leaf_items.len() || !node.leaf_items[position].key.same(&target_key) {
            return Err(BafsError::NotFound);
        }
        node.leaf_items.remove(position);
        freed_blocks.push(block_address);
        let new_block: u64 = *next_free_block;
        *next_free_block = new_block + 1;
        node.item_count = node.leaf_items.len() as u16;
        node.self_block_address = new_block;
        node.generation = generation;
        proof {
            assert(node@.leaf_items =~= old_node.leaf_items.remove(position as int));
            lemma_remove_size(old_node.leaf_items, position as int);
        }
        store::write_tree_node_to_cache(dirty_cache, &node);
        proof {
            growth::lemma_node_written(
                store::visible_blocks(disk, dirty_cache@),
                new_block,
                node@,
            );
            store::lemma_stamped_one(dirty_cache@, new_block, generation);
            lemma_leaf_shrunk(
                disk,
                old(dirty_cache)@,
                dirty_cache@,
                block_address,
                bounds.span(),
                old_node,
                node@,
                bounds.lower,
                target_key,
                generation,
                new_block,
            );
        }
        return Ok(new_block);
    }
    let index: usize = find_child_index_for_key(&node.internal_items, &target_key);
    let child_block: u64 = node.internal_items[index].child_block;
    let child_bounds = bounds.child(&node.internal_items, index, node.level);
    proof {
        model::lemma_child_index(node.internal_items@, target_key.rank());
    }
    match delete_recursive(
        device,
        dirty_cache,
        child_block,
        &child_bounds,
        target_key,
        generation,
        next_free_block,
        freed_blocks,
    ) {
        Err(error) => Err(error),
        Ok(new_child) => {
            let ghost below = model::path_to(
                before,
                child_block,
                child_bounds.span(),
                target_key.rank(),
            );
            let ghost middle_cache = dirty_cache@;
            let separator: BafsKey = node.internal_items[index].key;
            let lower: BafsKey = if target_key.precedes(&separator) {
                target_key
            } else {
                separator
            };
            node.internal_items.set(
                index,
                BafsInternalItem {
                    key: lower,
                    child_block: new_child,
                    child_generation: generation,
                },
            );
            freed_blocks.push(block_address);
            let new_block: u64 = *next_free_block;
            *next_free_block = new_block + 1;
            node.self_block_address = new_block;
            node.generation = generation;
            store::write_tree_node_to_cache(dirty_cache, &node);
            proof {
                store::lemma_stamped_one(dirty_cache@, new_block, generation);
                store::lemma_stamped_joins(
                    middle_cache,
                    dirty_cache@,
                    *old(next_free_block) as int,
                    new_block as int,
                    new_block + 1,
                    generation,
                );
                let parts = parts_of(
                    lesser(target_key, separator),
                    new_child,
                    None,
                    generation,
                );
                assert(node.internal_items@ =~= model::splice(
                    old_node.internal_items,
                    index as int,
                    parts,
                ));
                assert((old(freed_blocks)@ + below).push(block_address) =~= old(freed_blocks)@
                    + below.push(block_address));
                let middle = store::visible_blocks(disk, middle_cache);
                let after = store::visible_blocks(disk, dirty_cache@);
                model::lemma_cow_frame_agrees(
                    disk,
                    middle_cache,
                    dirty_cache@,
                    new_block as int,
                    new_block + 1,
                );
                growth::lemma_path_written_kept(
                    before,
                    middle,
                    after,
                    child_block,
                    child_bounds.span(),
                    target_key,
                    None,
                    generation,
                    new_child,
                    None,
                    *old(next_free_block) as int,
                    new_block as int,
                );
                growth::lemma_node_written(after, new_block, node@);
                assert(growth::parent_written(
                    after,
                    old_node,
                    index as int,
                    target_key,
                    None,
                    new_child,
                    None,
                    generation,
                    new_block,
                    None,
                    new_block as int,
                    new_block + 1,
                ));
                lemma_internal_replaced_by_one(
                    disk,
                    old(dirty_cache)@,
                    middle_cache,
                    dirty_cache@,
                    block_address,
                    bounds.span(),
                    old_node,
                    node@,
                    index as int,
                    parts,
                    bounds.lower,
                    target_key,
                    None,
                    generation,
                    *old(next_free_block) as int,
                    new_block,
                );
            }
            Ok(new_block)
        },
    }
}

/// Delete the item with `target_key`. Returns the address of the new root.
///
/// New nodes are taken from `next_free_block` on. The addresses of the nodes
/// that the new ones supersede are appended to `freed_blocks`.
pub fn delete_from_tree<D: BlockDevice>(
    device: &D,
    dirty_cache: &mut BTreeMap<u64, Vec<u8>>,
    root_block_address: u64,
    target_key: BafsKey,
    generation: u64,
    next_free_block: &mut u64,
    freed_blocks: &mut Vec<u64>,
) -> (result: Result<u64, BafsError>)
    requires
        store::cache_valid(old(dirty_cache)@),
        *old(next_free_block) + 512 <= u64::MAX,
    ensures
        store::stamped(
            final(dirty_cache)@,
            *old(next_free_block) as int,
            *final(next_free_block) as int,
            generation,
        ),
        deletion_outcome(
            device.contents(),
            old(dirty_cache)@,
            final(dirty_cache)@,
            device.reliable(),
            root_block_address,
            target_key,
            *old(next_free_block),
            *final(next_free_block),
            old(freed_blocks)@,
            final(freed_blocks)@,
            result,
        ),
        result matches Ok(new_root) ==> growth::deletion_written(
            store::visible_blocks(device.contents(), old(dirty_cache)@),
            store::visible_blocks(device.contents(), final(dirty_cache)@),
            root_block_address,
            target_key,
            generation,
            new_root,
            *old(next_free_block) as int,
            *final(next_free_block) as int,
        ),
{
    let bounds = SubtreeBounds::whole_tree();
    match delete_recursive(
        device,
        dirty_cache,
        root_block_address,
        &bounds,
        target_key,
        generation,
        next_free_block,
        freed_blocks,
    ) {
        Err(error) => Err(error),
        Ok(new_root) => {
            proof {
                lemma_root_replaced_by_one(
                    device.contents(),
                    old(dirty_cache)@,
                    dirty_cache@,
                    root_block_address,
                    parts_of(lesser(target_key, bounds.lower), new_root, None, generation),
                    target_key,
                    None,
                    *old(next_free_block) as int,
                    *next_free_block as int,
                );
                lemma_deletion_measured(
                    device.contents(),
                    old(dirty_cache)@,
                    dirty_cache@,
                    root_block_address,
                    target_key,
                    generation,
                    new_root,
                    *old(next_free_block) as int,
                    *next_free_block as int,
                );
            }
            Ok(new_root)
        },
    }
}

/// Write an empty leaf, which is an empty tree, to the block at `block_address`.
pub fn create_empty_tree(
    dirty_cache: &mut BTreeMap<u64, Vec<u8>>,
    block_address: u64,
    generation: u64,
)
    ensures
        store::stamped(
            final(dirty_cache)@,
            block_address as int,
            block_address + 1,
            generation,
        ),
        store::cache_valid(old(dirty_cache)@) ==> store::cache_valid(final(dirty_cache)@),
        store::cow_frame(
            old(dirty_cache)@,
            final(dirty_cache)@,
            block_address as int,
            block_address + 1,
        ),
        final(dirty_cache)@.contains_key(block_address),
        forall|disk: Seq<u8>|
            #![trigger store::visible_blocks(disk, final(dirty_cache)@)]
            {
                let blocks = store::visible_blocks(disk, final(dirty_cache)@);
                &&& forall|target: BafsKey| #[trigger]
                    model::tree_get(blocks, block_address, target) == Ok::<
                        Option<Seq<u8>>,
                        BafsError,
                    >(None)
                &&& model::tree_confined(
                    blocks,
                    block_address,
                    block_address as int,
                    block_address + 1,
                )
                &&& model::checked_node(blocks, block_address, model::root_span()) is Ok
                &&& root_level(blocks, block_address) == 0
                &&& growth::holds_leaf(blocks, block_address, Seq::empty())
            },
{
    let empty_leaf = BafsTreeNode {
        node_checksum: 0,
        level: 0,
        flags: 0,
        item_count: 0,
        self_block_address: block_address,
        generation,
        leaf_items: Vec::new(),
        internal_items: Vec::new(),
    };
    store::write_tree_node_to_cache(dirty_cache, &empty_leaf);
    proof {
        store::lemma_stamped_one(dirty_cache@, block_address, generation);
        assert forall|disk: Seq<u8>|
            #![trigger store::visible_blocks(disk, dirty_cache@)]
            {
                let blocks = store::visible_blocks(disk, dirty_cache@);
                &&& forall|target: BafsKey| #[trigger]
                    model::tree_get(blocks, block_address, target) == Ok::<
                        Option<Seq<u8>>,
                        BafsError,
                    >(None)
                &&& model::tree_confined(
                    blocks,
                    block_address,
                    block_address as int,
                    block_address + 1,
                )
                &&& model::checked_node(blocks, block_address, model::root_span()) is Ok
                &&& root_level(blocks, block_address) == 0
                &&& growth::holds_leaf(blocks, block_address, Seq::empty())
            } by {
            let blocks = store::visible_blocks(disk, dirty_cache@);
            model::lemma_written_node(blocks, block_address, empty_leaf@, model::root_span());
            assert(empty_leaf@.leaf_items =~= Seq::empty());
            assert forall|target: BafsKey| #[trigger]
                model::tree_get(blocks, block_address, target) == Ok::<
                    Option<Seq<u8>>,
                    BafsError,
                >(None) by {
                model::lemma_leaf_absent(empty_leaf@.leaf_items, target);
            }
        }
    }
}

/// Append to `output` the items of the subtree whose keys lie between `min_key`
/// and `max_key`.
#[verifier::spinoff_prover]
#[verifier::rlimit(60)]
fn collect_range<D: BlockDevice>(
    device: &D,
    dirty_cache: &BTreeMap<u64, Vec<u8>>,
    block_address: u64,
    bounds: &SubtreeBounds,
    min_key: &BafsKey,
    max_key: &BafsKey,
    output: &mut Vec<BafsLeafItem>,
) -> (result: Result<(), BafsError>)
    requires
        store::cache_valid(dirty_cache@),
    ensures
        ({
            let expected = model::range_of(
                store::visible_blocks(device.contents(), dirty_cache@),
                block_address,
                bounds.span(),
                min_key.rank(),
                max_key.rank(),
            );
            match result {
                Ok(_) => expected is Ok && node::leaf_entries(final(output)@)
                    == node::leaf_entries(old(output)@) + expected->Ok_0,
                Err(error) => expected == Err::<Seq<LeafEntry>, BafsError>(error) || error
                    == BafsError::InputOutputError && !device.reliable() && !model::range_cached(
                    store::visible_blocks(device.contents(), dirty_cache@),
                    dirty_cache@.dom(),
                    block_address,
                    bounds.span(),
                    min_key.rank(),
                    max_key.rank(),
                ),
            }
        }),
    decreases bounds.levels,
{
    let ghost blocks = store::visible_blocks(device.contents(), dirty_cache@);
    let ghost min = min_key.rank();
    let ghost max = max_key.rank();
    let ghost given = node::leaf_entries(output@);
    proof {
        reveal(model::range_cached);
    }
    let node = match read_checked_node(device, dirty_cache, block_address, bounds) {
        Ok(node) => node,
        Err(error) => {
            return Err(error);
        },
    };
    let mut index: usize = 0;
    if node.level == 0 {
        let ghost entries = node@.leaf_items;
        assert(entries.take(0) =~= Seq::empty());
        assert(given + model::entries_between(entries.take(0), min, max) =~= given);
        while index < node.leaf_items.len()
            invariant
                index <= node.leaf_items@.len(),
                entries == node::leaf_entries(node.leaf_items@),
                min == min_key.rank(),
                max == max_key.rank(),
                node::leaf_entries(output@) == given + model::entries_between(
                    entries.take(index as int),
                    min,
                    max,
                ),
            decreases node.leaf_items@.len() - index,
        {
            let item = &node.leaf_items[index];
            let ghost written = output@;
            proof {
                assert(entries.take(index + 1).drop_last() =~= entries.take(index as int));
                assert(entries.take(index + 1).last() == item@);
            }
            if !item.key.precedes(min_key) && !max_key.precedes(&item.key) {
                let copy = BafsLeafItem {
                    key: item.key,
                    value: slice_to_vec(item.value.as_slice()),
                };
                assert(copy@ == item@);
                output.push(copy);
                assert(node::leaf_entries(output@) =~= node::leaf_entries(written).push(item@));
            }
            assert(node::leaf_entries(output@) =~= given + model::entries_between(
                entries.take(index + 1),
                min,
                max,
            ));
            index = index + 1;
        }
        assert(entries.take(entries.len() as int) =~= entries);
    } else {
        let ghost items = node.internal_items@;
        let ghost upper = bounds.span().upper;
        let ghost level = node.level as nat;
        assert(given + Seq::<LeafEntry>::empty() =~= given);
        while index < node.internal_items.len()
            invariant
                index <= node.internal_items@.len(),
                store::cache_valid(dirty_cache@),
                blocks == store::visible_blocks(device.contents(), dirty_cache@),
                items == node.internal_items@,
                upper == bounds.span().upper,
                level == node.level,
                node.level < bounds.levels,
                node.level > 0,
                model::checked_node(blocks, block_address, bounds.span()) == Ok::<
                    NodeModel,
                    BafsError,
                >(node@),
                min == min_key.rank(),
                max == max_key.rank(),
                model::range_of(blocks, block_address, bounds.span(), min, max)
                    == model::range_of_children(blocks, items, items.len(), upper, level, min, max),
                model::range_of_children(blocks, items, index as nat, upper, level, min, max) is Ok,
                node::leaf_entries(output@) == given + model::range_of_children(
                    blocks,
                    items,
                    index as nat,
                    upper,
                    level,
                    min,
                    max,
                )->Ok_0,
            decreases node.internal_items@.len() - index,
        {
            proof {
                reveal(model::range_cached);
            }
            let before_range = index < node.internal_items.len() - 1
                && node.internal_items[index + 1].key.precedes(min_key);
            let behind_range = max_key.precedes(&node.internal_items[index].key);
            if !before_range && !behind_range {
                let child_bounds = bounds.child(&node.internal_items, index, node.level);
                let ghost found = model::range_of_children(
                    blocks,
                    items,
                    index as nat,
                    upper,
                    level,
                    min,
                    max,
                );
                match collect_range(
                    device,
                    dirty_cache,
                    node.internal_items[index].child_block,
                    &child_bounds,
                    min_key,
                    max_key,
                    output,
                ) {
                    Err(error) => {
                        proof {
                            if model::range_of(
                                blocks,
                                items[index as int].child_block,
                                child_bounds.span(),
                                min,
                                max,
                            ) is Err {
                                model::lemma_range_error(
                                    blocks,
                                    items,
                                    (index + 1) as nat,
                                    items.len(),
                                    upper,
                                    level,
                                    min,
                                    max,
                                );
                            }
                        }
                        return Err(error);
                    },
                    Ok(_) => {
                        proof {
                            let more = model::range_of(
                                blocks,
                                items[index as int].child_block,
                                child_bounds.span(),
                                min,
                                max,
                            )->Ok_0;
                            assert(given + found->Ok_0 + more =~= given + (found->Ok_0 + more));
                        }
                    },
                }
            }
            index = index + 1;
        }
    }
    Ok(())
}

/// All items whose keys lie between `min_key` and `max_key`, in the order of
/// their keys.
pub fn iterate_tree_range<D: BlockDevice>(
    device: &D,
    dirty_cache: &BTreeMap<u64, Vec<u8>>,
    root_block_address: u64,
    min_key: BafsKey,
    max_key: BafsKey,
) -> (result: Result<Vec<BafsLeafItem>, BafsError>)
    requires
        store::cache_valid(dirty_cache@),
    ensures
        ({
            let expected = model::tree_range(
                store::visible_blocks(device.contents(), dirty_cache@),
                root_block_address,
                min_key,
                max_key,
            );
            match result {
                Ok(items) => expected == Ok::<Seq<LeafEntry>, BafsError>(
                    node::leaf_entries(items@),
                ),
                Err(error) => expected == Err::<Seq<LeafEntry>, BafsError>(error) || error
                    == BafsError::InputOutputError && !device.reliable() && !model::range_cached(
                    store::visible_blocks(device.contents(), dirty_cache@),
                    dirty_cache@.dom(),
                    root_block_address,
                    model::root_span(),
                    min_key.rank(),
                    max_key.rank(),
                ),
            }
        }),
{
    let mut results: Vec<BafsLeafItem> = Vec::new();
    let bounds = SubtreeBounds::whole_tree();
    let ghost given = node::leaf_entries(results@);
    match collect_range(
        device,
        dirty_cache,
        root_block_address,
        &bounds,
        &min_key,
        &max_key,
        &mut results,
    ) {
        Err(error) => Err(error),
        Ok(_) => {
            proof {
                let expected = model::tree_range(
                    store::visible_blocks(device.contents(), dirty_cache@),
                    root_block_address,
                    min_key,
                    max_key,
                );
                assert(given + expected->Ok_0 =~= expected->Ok_0);
            }
            Ok(results)
        },
    }
}

/// What a change of one key does to a sound tree as a map.
pub proof fn lemma_tree_replaced_map(
    disk: Seq<u8>,
    old_cache: Map<u64, Vec<u8>>,
    new_cache: Map<u64, Vec<u8>>,
    old_root: u64,
    new_root: u64,
    key: BafsKey,
    change: Option<Seq<u8>>,
    base: int,
    old_next: int,
    new_next: int,
)
    requires
        tree_replaced(
            disk,
            old_cache,
            new_cache,
            old_root,
            new_root,
            key,
            change,
            old_next,
            new_next,
        ),
        model::tree_confined(
            store::visible_blocks(disk, old_cache),
            old_root,
            base,
            old_next,
        ),
        model::tree_sound(store::visible_blocks(disk, old_cache), old_root),
    ensures
        model::tree_confined(store::visible_blocks(disk, new_cache), new_root, base, new_next),
        model::tree_sound(store::visible_blocks(disk, new_cache), new_root),
        model::tree_map(store::visible_blocks(disk, new_cache), new_root) == match change {
            Some(value) => model::tree_map(
                store::visible_blocks(disk, old_cache),
                old_root,
            ).insert(key, value),
            None => model::tree_map(store::visible_blocks(disk, old_cache), old_root).remove(key),
        },
{
    let before = store::visible_blocks(disk, old_cache);
    let after = store::visible_blocks(disk, new_cache);
    assert(tree_changed(before, old_root, after, new_root, key, change, base, old_next, new_next));
    assert forall|target: BafsKey| #[trigger] model::tree_get(after, new_root, target) is Ok by {
        assert(model::tree_get(before, old_root, target) is Ok);
    }
    match change {
        Some(value) => {
            assert(model::tree_map(after, new_root) =~= model::tree_map(before, old_root).insert(
                key,
                value,
            ));
        },
        None => {
            assert(model::tree_map(after, new_root) =~= model::tree_map(before, old_root).remove(
                key,
            ));
        },
    }
}

/// The size of the largest value that a leaf can hold.
pub open spec fn max_value_size() -> nat {
    4047
}

/// A value of at most this size can always be inserted.
pub open spec fn small_value_size() -> nat {
    2011
}

/// Every value of the tree fits into a leaf.
pub open spec fn values_fit(items: Map<BafsKey, Seq<u8>>) -> bool {
    forall|key: BafsKey| #[trigger]
        items.contains_key(key) ==> items[key].len() <= max_value_size()
}

/// The tree is undamaged, and its nodes lie between `base` and `next`.
pub open spec fn tree_ready(
    blocks: Map<u64, Seq<u8>>,
    root: u64,
    base: int,
    next: int,
) -> bool {
    &&& model::tree_confined(blocks, root, base, next)
    &&& model::tree_sound(blocks, root)
    &&& values_fit(model::tree_map(blocks, root))
}

/// The sizes of the items before and behind one that was put into a leaf.
proof fn lemma_put_parts(items: Seq<LeafEntry>, target: BafsKey, value: Seq<u8>)
    requires
        model::sorted(model::leaf_ranks(items)),
    ensures
        ({
            let position = model::lower_bound(model::leaf_ranks(items), target.rank());
            let result = model::leaf_put(items, target, value);
            let before = node::leaf_size(result.take(position));
            let behind = node::leaf_size(result.skip(position + 1));
            let own = 25 + value.len();
            &&& 0 <= position < result.len()
            &&& result[position] == (LeafEntry { key: target, value })
            &&& node::leaf_size(result) == before + behind - 24 + own
            &&& node::leaf_size(result.take(position + 1)) == before + own
            &&& node::leaf_size(result.skip(position)) == behind + own
            &&& if position < items.len() && items[position].key == target {
                before + behind - 24 + 25 + items[position].value.len() == node::leaf_size(items)
            } else {
                before + behind - 24 == node::leaf_size(items)
            }
        }),
{
    let position = model::lower_bound(model::leaf_ranks(items), target.rank());
    let result = model::leaf_put(items, target, value);
    model::lemma_lower_bound(model::leaf_ranks(items), target.rank());
    lemma_sizes_of_halves(result, position);
    lemma_sizes_of_halves(result, position + 1);
    lemma_sizes_of_halves(items, position);
    node::lemma_values_len_of_prefix(result, position);
    assert(result.take(position) =~= items.take(position));
    if position < items.len() && items[position].key == target {
        lemma_sizes_of_halves(items, position + 1);
        node::lemma_values_len_of_prefix(items, position);
        assert(result.skip(position + 1) =~= items.skip(position + 1));
    } else {
        assert(result.skip(position + 1) =~= items.skip(position));
    }
}

/// An item that is not too large can be put into any leaf, if need be by dividing
/// the leaf right before or right behind it.
proof fn lemma_small_value_storable(items: Seq<LeafEntry>, key: BafsKey, value: Seq<u8>)
    requires
        model::sorted(model::leaf_ranks(items)),
        node::leaf_size(items) <= 4096,
        value.len() <= small_value_size(),
    ensures
        model::leaf_storable(model::leaf_put(items, key, value)),
{
    let position = model::lower_bound(model::leaf_ranks(items), key.rank());
    let result = model::leaf_put(items, key, value);
    lemma_put_parts(items, key, value);
    if node::leaf_size(result) > 4096 {
        if position == 0 {
            assert(result.take(0) =~= Seq::empty());
        }
        if position + 1 == result.len() {
            assert(result.skip(position + 1) =~= Seq::empty());
        }
        if position + 1 < result.len() && node::leaf_size(result.take(position + 1)) <= 4096 {
            assert(node::leaf_size(result.take(position + 1)) <= 4096 && node::leaf_size(
                result.skip(position + 1),
            ) <= 4096);
        } else {
            assert(node::leaf_size(result.take(position)) <= 4096 && node::leaf_size(
                result.skip(position),
            ) <= 4096);
        }
        assert(model::leaf_splittable(result));
    }
}

/// A value that was put into a leaf, or into one of the two that it was divided
/// into, fits into a leaf.
proof fn lemma_stored_value_fits(items: Seq<LeafEntry>, key: BafsKey, value: Seq<u8>)
    requires
        model::sorted(model::leaf_ranks(items)),
        model::leaf_storable(model::leaf_put(items, key, value)),
    ensures
        value.len() <= max_value_size(),
{
    let position = model::lower_bound(model::leaf_ranks(items), key.rank());
    let result = model::leaf_put(items, key, value);
    lemma_put_parts(items, key, value);
    if node::leaf_size(result) > 4096 {
        let split = choose|split: int|
            0 < split < result.len() && node::leaf_size(#[trigger] result.take(split)) <= 4096
                && node::leaf_size(result.skip(split)) <= 4096;
        lemma_sizes_of_halves(result, split);
        lemma_sizes_of_halves(result, position);
        lemma_sizes_of_halves(result, position + 1);
        if split <= position {
            lemma_prefix_sizes_grow(result, split, position);
        } else {
            lemma_prefix_sizes_grow(result, position + 1, split);
        }
        node::lemma_values_len_of_prefix(result, position);
        lemma_prefix_sizes_grow(result, position + 1, result.len() as int);
        assert(result.take(result.len() as int) =~= result);
    }
}

/// A value that was inserted fits into a leaf.
pub proof fn lemma_inserted_value_fits(
    blocks: Map<u64, Seq<u8>>,
    root: u64,
    key: BafsKey,
    value: Seq<u8>,
)
    requires
        insert_error(blocks, root, key, value) is None,
    ensures
        value.len() <= max_value_size(),
{
    let items = model::leaf_for(blocks, root, model::root_span(), key.rank())->Ok_0;
    model::lemma_leaf_for_within(blocks, root, model::root_span(), key.rank());
    lemma_stored_value_fits(items, key, value);
}

/// In a sound tree a value can be replaced by a shorter one.
pub proof fn lemma_shorter_value_fits(
    blocks: Map<u64, Seq<u8>>,
    root: u64,
    key: BafsKey,
    value: Seq<u8>,
)
    requires
        model::tree_sound(blocks, root),
        model::tree_map(blocks, root).contains_key(key),
        value.len() <= model::tree_map(blocks, root)[key].len(),
        root_level(blocks, root) + 1 < model::level_limit(),
    ensures
        insert_error(blocks, root, key, value) is None,
{
    assert(model::tree_get(blocks, root, key) is Ok);
    let items = model::leaf_for(blocks, root, model::root_span(), key.rank())->Ok_0;
    model::lemma_leaf_for_within(blocks, root, model::root_span(), key.rank());
    model::lemma_lower_bound(model::leaf_ranks(items), key.rank());
    lemma_put_parts(items, key, value);
}

/// An upper bound of a tree's level after some insertions.
pub open spec fn level_bound(level: nat, insertions: nat) -> nat {
    level + fanout::levels_gained(insertions)
}

/// The level of a tree's root.
pub fn tree_level<D: BlockDevice>(
    device: &D,
    dirty_cache: &BTreeMap<u64, Vec<u8>>,
    root_block_address: u64,
) -> (result: Result<u8, BafsError>)
    requires
        store::cache_valid(dirty_cache@),
    ensures
        ({
            let found = model::checked_node(
                store::visible_blocks(device.contents(), dirty_cache@),
                root_block_address,
                model::root_span(),
            );
            match result {
                Ok(level) => found is Ok && found->Ok_0.level == level,
                Err(error) => found == Err::<NodeModel, BafsError>(error) || error
                    == BafsError::InputOutputError && !device.reliable(),
            }
        }),
{
    match read_checked_node(
        device,
        dirty_cache,
        root_block_address,
        &SubtreeBounds::whole_tree(),
    ) {
        Ok(node) => Ok(node.level),
        Err(error) => Err(error),
    }
}


/// A small value can be inserted into a tree that holds small values.
pub proof fn lemma_insert_succeeds(
    blocks: Map<u64, Seq<u8>>,
    root: u64,
    key: BafsKey,
    value: Seq<u8>,
)
    requires
        model::tree_sound(blocks, root),
        value.len() <= small_value_size(),
        root_level(blocks, root) + 1 < model::level_limit(),
    ensures
        insert_error(blocks, root, key, value) is None,
        model::checked_node(blocks, root, model::root_span()) is Ok,
{
    assert(model::tree_get(blocks, root, key) is Ok);
    let items = model::leaf_for(blocks, root, model::root_span(), key.rank())->Ok_0;
    model::lemma_leaf_for_within(blocks, root, model::root_span(), key.rank());
    lemma_small_value_storable(items, key, value);
}

/// In a sound tree an item that is there can be deleted.
pub proof fn lemma_delete_succeeds(blocks: Map<u64, Seq<u8>>, root: u64, key: BafsKey)
    requires
        model::tree_sound(blocks, root),
        model::tree_map(blocks, root).contains_key(key),
    ensures
        delete_error(blocks, root, key) is None,
{
}

/// What a change of one key does to a tree that is ready for changes.
pub proof fn lemma_tree_stays_ready(
    disk: Seq<u8>,
    old_cache: Map<u64, Vec<u8>>,
    new_cache: Map<u64, Vec<u8>>,
    old_root: u64,
    new_root: u64,
    key: BafsKey,
    change: Option<Seq<u8>>,
    base: int,
    old_next: int,
    new_next: int,
)
    requires
        tree_replaced(
            disk,
            old_cache,
            new_cache,
            old_root,
            new_root,
            key,
            change,
            old_next,
            new_next,
        ),
        tree_ready(store::visible_blocks(disk, old_cache), old_root, base, old_next),
        change matches Some(value) ==> value.len() <= max_value_size(),
    ensures
        tree_ready(store::visible_blocks(disk, new_cache), new_root, base, new_next),
        model::tree_map(store::visible_blocks(disk, new_cache), new_root) == match change {
            Some(value) => model::tree_map(
                store::visible_blocks(disk, old_cache),
                old_root,
            ).insert(key, value),
            None => model::tree_map(store::visible_blocks(disk, old_cache), old_root).remove(key),
        },
{
    lemma_tree_replaced_map(
        disk,
        old_cache,
        new_cache,
        old_root,
        new_root,
        key,
        change,
        base,
        old_next,
        new_next,
    );
}

/// A tree stays ready when new nodes of other trees are written behind it.
pub proof fn lemma_tree_untouched(
    disk: Seq<u8>,
    old_cache: Map<u64, Vec<u8>>,
    new_cache: Map<u64, Vec<u8>>,
    root: u64,
    base: int,
    old_next: int,
    new_next: int,
)
    requires
        store::cow_frame(old_cache, new_cache, old_next, new_next),
        tree_ready(store::visible_blocks(disk, old_cache), root, base, old_next),
        old_next <= new_next,
    ensures
        tree_ready(store::visible_blocks(disk, new_cache), root, base, new_next),
        model::tree_map(store::visible_blocks(disk, new_cache), root) == model::tree_map(
            store::visible_blocks(disk, old_cache),
            root,
        ),
        root_level(store::visible_blocks(disk, new_cache), root) == root_level(
            store::visible_blocks(disk, old_cache),
            root,
        ),
{
    let before = store::visible_blocks(disk, old_cache);
    let after = store::visible_blocks(disk, new_cache);
    model::lemma_cow_frame_agrees(disk, old_cache, new_cache, old_next, new_next);
    assert(model::agree(before, after, base, old_next));
    model::lemma_tree_agrees(before, after, root, base, old_next, new_next);
}

} // verus!
