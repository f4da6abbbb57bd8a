//! How a tree grows: which nodes an insertion writes, what they hold, and where
//! they stand.

use vstd::prelude::*;
use crate::checksum;
use crate::error::BafsError;
use super::key::BafsKey;
use super::model;
use super::model::Span;
use super::node;
use super::node::{BafsInternalItem, LeafEntry, NodeModel};
use super::store;
use super::tree;
use super::tree::SplitResult;

verus! {

/// The block at `address` holds a leaf with the items `items`.
pub open spec fn holds_leaf(
    blocks: Map<u64, Seq<u8>>,
    address: u64,
    items: Seq<LeafEntry>,
) -> bool {
    &&& store::node_at(blocks, address) is Ok
    &&& store::node_at(blocks, address)->Ok_0.level == 0
    &&& store::node_at(blocks, address)->Ok_0.leaf_items == items
}

/// The block at `address` holds an internal node with the items `items`.
pub open spec fn holds_internal(
    blocks: Map<u64, Seq<u8>>,
    address: u64,
    level: u8,
    items: Seq<BafsInternalItem>,
) -> bool {
    &&& store::node_at(blocks, address) is Ok
    &&& store::node_at(blocks, address)->Ok_0.level == level
    &&& store::node_at(blocks, address)->Ok_0.internal_items == items
}

/// The items `items` were cut near the middle, and stand in two leaves.
pub open spec fn leaf_cut(
    blocks: Map<u64, Seq<u8>>,
    items: Seq<LeafEntry>,
    left: u64,
    right: SplitResult,
) -> bool {
    let cut = model::leaf_cut_place(items);
    &&& 0 < cut < items.len()
    &&& holds_leaf(blocks, left, items.take(cut))
    &&& holds_leaf(blocks, right.child_block, items.skip(cut))
    &&& right.key == items[cut].key
}

/// The items `items` were written to the blocks `start .. end`: to one leaf where
/// they fit into it, and else to two, the right one first.
pub open spec fn leaf_written(
    blocks: Map<u64, Seq<u8>>,
    items: Seq<LeafEntry>,
    left: u64,
    split: Option<SplitResult>,
    start: int,
    end: int,
) -> bool {
    if node::leaf_size(items) <= 4096 {
        &&& split is None
        &&& left == start
        &&& end == start + 1
        &&& holds_leaf(blocks, left, items)
    } else {
        &&& split is Some
        &&& split->Some_0.child_block == start
        &&& left == start + 1
        &&& end == start + 2
        &&& leaf_cut(blocks, items, left, split->Some_0)
    }
}

/// The items `items` were written to the blocks `start .. end`: to one internal
/// node where there are at most 90, and else to two, cut in the middle, the right
/// one first.
pub open spec fn internal_written(
    blocks: Map<u64, Seq<u8>>,
    level: u8,
    items: Seq<BafsInternalItem>,
    left: u64,
    split: Option<SplitResult>,
    start: int,
    end: int,
) -> bool {
    if items.len() <= node::INTERNAL_MAX_ITEMS {
        &&& split is None
        &&& left == start
        &&& end == start + 1
        &&& holds_internal(blocks, left, level, items)
    } else {
        let cut = items.len() as int / 2;
        &&& split is Some
        &&& split->Some_0.child_block == start
        &&& left == start + 1
        &&& end == start + 2
        &&& holds_internal(blocks, left, level, items.take(cut))
        &&& holds_internal(blocks, split->Some_0.child_block, level, items.skip(cut))
        &&& split->Some_0.key == items[cut].key
    }
}

/// The items of an internal node whose child at `index` was replaced, while `key`
/// was put below it.
pub open spec fn with_child_replaced(
    items: Seq<BafsInternalItem>,
    index: int,
    key: BafsKey,
    left: u64,
    split: Option<SplitResult>,
    generation: u64,
) -> Seq<BafsInternalItem> {
    model::splice(
        items,
        index,
        tree::parts_of(tree::lesser(key, items[index].key), left, split, generation),
    )
}

/// The items of a leaf once the value of `key` is `change`.
pub open spec fn leaf_changed(
    items: Seq<LeafEntry>,
    key: BafsKey,
    change: Option<Seq<u8>>,
) -> Seq<LeafEntry> {
    match change {
        Some(value) => model::leaf_put(items, key, value),
        None => model::leaf_remove(items, key),
    }
}

/// An internal node was written again to the blocks `start .. end`, with its child
/// at `index` replaced. It is never divided where an item was removed below it.
pub open spec fn parent_written(
    blocks: Map<u64, Seq<u8>>,
    parent: NodeModel,
    index: int,
    key: BafsKey,
    change: Option<Seq<u8>>,
    new_child: u64,
    new_split: Option<SplitResult>,
    generation: u64,
    left: u64,
    split: Option<SplitResult>,
    start: int,
    end: int,
) -> bool {
    let items = with_child_replaced(
        parent.internal_items,
        index,
        key,
        new_child,
        new_split,
        generation,
    );
    if change is Some {
        internal_written(blocks, parent.level, items, left, split, start, end)
    } else {
        &&& new_split is None
        &&& split is None
        &&& left == start
        &&& end == start + 1
        &&& holds_internal(blocks, left, parent.level, items)
    }
}

/// The nodes on the way to `key` were written again, from the leaf up to the top
/// of the subtree, to the blocks `start .. end`, the leaf with `change` as the value
/// of `key`.
pub open spec fn path_written(
    before: Map<u64, Seq<u8>>,
    after: Map<u64, Seq<u8>>,
    address: u64,
    span: Span,
    key: BafsKey,
    change: Option<Seq<u8>>,
    generation: u64,
    left: u64,
    split: Option<SplitResult>,
    start: int,
    end: int,
) -> bool
    decreases span.levels,
{
    match model::checked_node(before, address, span) {
        Err(_) => false,
        Ok(parent) => if parent.level == 0 {
            leaf_written(
                after,
                leaf_changed(parent.leaf_items, key, change),
                left,
                split,
                start,
                end,
            )
        } else {
            let index = model::child_index(parent.internal_items, key.rank());
            exists|new_child: u64, new_split: Option<SplitResult>, middle: int| #[trigger]
                parent_written(
                    after,
                    parent,
                    index,
                    key,
                    change,
                    new_child,
                    new_split,
                    generation,
                    left,
                    split,
                    middle,
                    end,
                ) && path_written(
                    before,
                    after,
                    parent.internal_items[index].child_block,
                    model::child_span(
                        parent.internal_items,
                        index,
                        span.upper,
                        parent.level as nat,
                    ),
                    key,
                    change,
                    generation,
                    new_child,
                    new_split,
                    start,
                    middle,
                )
        },
    }
}

/// The key of a node's first item.
pub open spec fn first_key(node: NodeModel) -> BafsKey {
    if node.level == 0 {
        node.leaf_items[0].key
    } else {
        node.internal_items[0].key
    }
}

/// The root of a tree whose old root became the node at `left` and, if it was
/// split, a right sibling: the node itself, or a new node over the two, which takes
/// one block more.
pub open spec fn root_written(
    after: Map<u64, Seq<u8>>,
    left: u64,
    split: Option<SplitResult>,
    generation: u64,
    new_root: u64,
    middle: int,
    end: int,
) -> bool {
    match split {
        None => new_root == left && end == middle,
        Some(_) => {
            let node = store::node_at(after, left)->Ok_0;
            &&& new_root == middle
            &&& end == middle + 1
            &&& holds_internal(
                after,
                new_root,
                (node.level + 1) as u8,
                tree::parts_of(first_key(node), left, split, generation),
            )
        },
    }
}

/// The nodes that putting `value` under `key` wrote, to the blocks `start .. end`.
pub open spec fn insertion_written(
    before: Map<u64, Seq<u8>>,
    after: Map<u64, Seq<u8>>,
    root: u64,
    key: BafsKey,
    value: Seq<u8>,
    generation: u64,
    new_root: u64,
    start: int,
    end: int,
) -> bool {
    exists|left: u64, split: Option<SplitResult>, middle: int| #[trigger]
        root_written(after, left, split, generation, new_root, middle, end) && path_written(
            before,
            after,
            root,
            model::root_span(),
            key,
            Some(value),
            generation,
            left,
            split,
            start,
            middle,
        )
}

/// The nodes that deleting `key` wrote, to the blocks `start .. end`.
pub open spec fn deletion_written(
    before: Map<u64, Seq<u8>>,
    after: Map<u64, Seq<u8>>,
    root: u64,
    key: BafsKey,
    generation: u64,
    new_root: u64,
    start: int,
    end: int,
) -> bool {
    path_written(
        before,
        after,
        root,
        model::root_span(),
        key,
        None,
        generation,
        new_root,
        None,
        start,
        end,
    )
}

/// What a block holds that a node was written to.
pub proof fn lemma_node_written(blocks: Map<u64, Seq<u8>>, address: u64, written: NodeModel)
    requires
        blocks.contains_key(address),
        blocks[address] == node::node_block_bytes(written),
        node::node_fits(written),
        written.level > 0 ==> written.item_count == written.internal_items.len()
            && written.leaf_items.len() == 0,
        written.level == 0 ==> written.item_count == written.leaf_items.len()
            && written.internal_items.len() == 0,
    ensures
        store::node_at(blocks, address) == Ok::<NodeModel, BafsError>(
            (NodeModel {
                node_checksum: checksum::crc32c(node::node_body_bytes(written)),
                ..written
            }),
        ),
{
    node::law_node_round_trip(written, address);
}

/// Writing a path takes at least one block. What was written stays as long as
/// these blocks do.
pub proof fn lemma_path_written_kept(
    before: Map<u64, Seq<u8>>,
    middle: Map<u64, Seq<u8>>,
    after: Map<u64, Seq<u8>>,
    address: u64,
    span: Span,
    key: BafsKey,
    change: Option<Seq<u8>>,
    generation: u64,
    left: u64,
    split: Option<SplitResult>,
    start: int,
    end: int,
)
    requires
        path_written(
            before,
            middle,
            address,
            span,
            key,
            change,
            generation,
            left,
            split,
            start,
            end,
        ),
        model::agree(middle, after, start, end),
    ensures
        path_written(
            before,
            after,
            address,
            span,
            key,
            change,
            generation,
            left,
            split,
            start,
            end,
        ),
        start < end,
        left == end - 1,
    decreases span.levels,
{
    let parent = model::checked_node(before, address, span)->Ok_0;
    if parent.level == 0 {
        let items = leaf_changed(parent.leaf_items, key, change);
        if node::leaf_size(items) <= 4096 {
            assert(middle.contains_key(left) == after.contains_key(left));
        } else {
            let right = split->Some_0;
            assert(middle.contains_key(left) == after.contains_key(left));
            assert(middle.contains_key(right.child_block) == after.contains_key(right.child_block));
            assert(leaf_cut(after, items, left, right));
        }
    } else {
        let index = model::child_index(parent.internal_items, key.rank());
        let child = parent.internal_items[index].child_block;
        let child_span = model::child_span(
            parent.internal_items,
            index,
            span.upper,
            parent.level as nat,
        );
        let (new_child, new_split, between) = choose|
            new_child: u64,
            new_split: Option<SplitResult>,
            between: int,
        | #[trigger]
            parent_written(
                middle,
                parent,
                index,
                key,
                change,
                new_child,
                new_split,
                generation,
                left,
                split,
                between,
                end,
            ) && path_written(
                before,
                middle,
                child,
                child_span,
                key,
                change,
                generation,
                new_child,
                new_split,
                start,
                between,
            );
        lemma_path_written_kept(
            before,
            middle,
            middle,
            child,
            child_span,
            key,
            change,
            generation,
            new_child,
            new_split,
            start,
            between,
        );
        lemma_path_written_kept(
            before,
            middle,
            after,
            child,
            child_span,
            key,
            change,
            generation,
            new_child,
            new_split,
            start,
            between,
        );
        assert(middle.contains_key(left) == after.contains_key(left));
        if split is Some {
            let right = split->Some_0.child_block;
            assert(middle.contains_key(right) == after.contains_key(right));
        }
        assert(parent_written(
            after,
            parent,
            index,
            key,
            change,
            new_child,
            new_split,
            generation,
            left,
            split,
            between,
            end,
        ));
    }
}

/// How an internal node on the way was written again.
pub proof fn lemma_parent_of_path(
    before: Map<u64, Seq<u8>>,
    after: Map<u64, Seq<u8>>,
    address: u64,
    span: Span,
    key: BafsKey,
    change: Option<Seq<u8>>,
    generation: u64,
    left: u64,
    split: Option<SplitResult>,
    start: int,
    end: int,
) -> (parts: (u64, Option<SplitResult>, int))
    requires
        path_written(
            before,
            after,
            address,
            span,
            key,
            change,
            generation,
            left,
            split,
            start,
            end,
        ),
        model::checked_node(before, address, span)->Ok_0.level > 0,
    ensures
        ({
            let parent = model::checked_node(before, address, span)->Ok_0;
            let index = model::child_index(parent.internal_items, key.rank());
            &&& parent_written(
                after,
                parent,
                index,
                key,
                change,
                parts.0,
                parts.1,
                generation,
                left,
                split,
                parts.2,
                end,
            )
            &&& path_written(
                before,
                after,
                parent.internal_items[index].child_block,
                model::child_span(
                    parent.internal_items,
                    index,
                    span.upper,
                    parent.level as nat,
                ),
                key,
                change,
                generation,
                parts.0,
                parts.1,
                start,
                parts.2,
            )
        }),
{
    let parent = model::checked_node(before, address, span)->Ok_0;
    let index = model::child_index(parent.internal_items, key.rank());
    let (new_child, new_split, middle) = choose|
        new_child: u64,
        new_split: Option<SplitResult>,
        middle: int,
    | #[trigger]
        parent_written(
            after,
            parent,
            index,
            key,
            change,
            new_child,
            new_split,
            generation,
            left,
            split,
            middle,
            end,
        ) && path_written(
            before,
            after,
            parent.internal_items[index].child_block,
            model::child_span(parent.internal_items, index, span.upper, parent.level as nat),
            key,
            change,
            generation,
            new_child,
            new_split,
            start,
            middle,
        );
    (new_child, new_split, middle)
}

/// An insertion that kept the root in one node.
pub proof fn lemma_one_root_written(
    before: Map<u64, Seq<u8>>,
    after: Map<u64, Seq<u8>>,
    root: u64,
    key: BafsKey,
    value: Seq<u8>,
    generation: u64,
    left: u64,
    start: int,
    end: int,
)
    requires
        path_written(
            before,
            after,
            root,
            model::root_span(),
            key,
            Some(value),
            generation,
            left,
            None,
            start,
            end,
        ),
    ensures
        insertion_written(before, after, root, key, value, generation, left, start, end),
{
    assert(root_written(after, left, None, generation, left, end, end));
}

/// An insertion that split the root, and set a new one over the two halves.
pub proof fn lemma_new_root_written(
    disk: Seq<u8>,
    before: Map<u64, Seq<u8>>,
    middle_cache: Map<u64, Vec<u8>>,
    new_cache: Map<u64, Vec<u8>>,
    root: u64,
    key: BafsKey,
    value: Seq<u8>,
    generation: u64,
    left: u64,
    split: SplitResult,
    written: NodeModel,
    start: int,
    next: u64,
)
    requires
        path_written(
            before,
            store::visible_blocks(disk, middle_cache),
            root,
            model::root_span(),
            key,
            Some(value),
            generation,
            left,
            Some(split),
            start,
            next as int,
        ),
        store::cow_frame(middle_cache, new_cache, next as int, next + 1),
        store::visible_blocks(disk, new_cache) == store::visible_blocks(disk, middle_cache).insert(
            next,
            node::node_block_bytes(written),
        ),
        written.level == store::node_at(
            store::visible_blocks(disk, middle_cache),
            left,
        )->Ok_0.level + 1,
        written.internal_items == tree::parts_of(
            first_key(store::node_at(store::visible_blocks(disk, middle_cache), left)->Ok_0),
            left,
            Some(split),
            generation,
        ),
        written.item_count == written.internal_items.len(),
        written.leaf_items.len() == 0,
    ensures
        insertion_written(
            before,
            store::visible_blocks(disk, new_cache),
            root,
            key,
            value,
            generation,
            next,
            start,
            next + 1,
        ),
{
    let middle = store::visible_blocks(disk, middle_cache);
    let after = store::visible_blocks(disk, new_cache);
    model::lemma_cow_frame_agrees(disk, middle_cache, new_cache, next as int, next + 1);
    assert(model::agree(middle, after, start, next as int));
    lemma_path_written_kept(
        before,
        middle,
        after,
        root,
        model::root_span(),
        key,
        Some(value),
        generation,
        left,
        Some(split),
        start,
        next as int,
    );
    lemma_node_written(after, next, written);
    assert(middle.contains_key(left) == after.contains_key(left));
    assert(root_written(after, left, Some(split), generation, next, next as int, next + 1));
}

/// How many nodes are written where `value` is put under `key` into a subtree, and
/// whether its top is divided.
pub open spec fn path_cost(
    blocks: Map<u64, Seq<u8>>,
    address: u64,
    span: Span,
    key: BafsKey,
    value: Seq<u8>,
) -> (nat, bool)
    decreases span.levels,
{
    match model::checked_node(blocks, address, span) {
        Err(_) => (0, false),
        Ok(top) => if top.level == 0 {
            if node::leaf_size(model::leaf_put(top.leaf_items, key, value)) <= 4096 {
                (1, false)
            } else {
                (2, true)
            }
        } else {
            let index = model::child_index(top.internal_items, key.rank());
            let below = path_cost(
                blocks,
                top.internal_items[index].child_block,
                model::child_span(top.internal_items, index, span.upper, top.level as nat),
                key,
                value,
            );
            let count = top.internal_items.len() + if below.1 {
                1int
            } else {
                0
            };
            if count <= node::INTERNAL_MAX_ITEMS {
                (below.0 + 1, false)
            } else {
                (below.0 + 2, true)
            }
        },
    }
}

/// How many nodes are written where `value` is put under `key` into a tree.
pub open spec fn insertion_cost(
    blocks: Map<u64, Seq<u8>>,
    root: u64,
    key: BafsKey,
    value: Seq<u8>,
) -> nat {
    let path = path_cost(blocks, root, model::root_span(), key, value);
    if path.1 {
        path.0 + 1
    } else {
        path.0
    }
}

/// How many nodes are written where `key` is deleted from a tree.
pub open spec fn deletion_cost(blocks: Map<u64, Seq<u8>>, root: u64, key: BafsKey) -> nat {
    model::path_to(blocks, root, model::root_span(), key.rank()).len()
}

/// The nodes on the way to a key take as many blocks as there are of them, and one
/// more for each that is divided.
proof fn lemma_path_cost(
    before: Map<u64, Seq<u8>>,
    after: Map<u64, Seq<u8>>,
    address: u64,
    span: Span,
    key: BafsKey,
    change: Option<Seq<u8>>,
    generation: u64,
    left: u64,
    split: Option<SplitResult>,
    start: int,
    end: int,
)
    requires
        path_written(
            before,
            after,
            address,
            span,
            key,
            change,
            generation,
            left,
            split,
            start,
            end,
        ),
        change is None ==> split is None,
    ensures
        match change {
            Some(value) => {
                &&& end == start + path_cost(before, address, span, key, value).0
                &&& (split is Some) == path_cost(before, address, span, key, value).1
            },
            None => end == start + model::path_to(before, address, span, key.rank()).len(),
        },
    decreases span.levels,
{
    let parent = model::checked_node(before, address, span)->Ok_0;
    if parent.level > 0 {
        let index = model::child_index(parent.internal_items, key.rank());
        model::lemma_child_index(parent.internal_items, key.rank());
        let (new_child, new_split, middle) = lemma_parent_of_path(
            before,
            after,
            address,
            span,
            key,
            change,
            generation,
            left,
            split,
            start,
            end,
        );
        lemma_path_cost(
            before,
            after,
            parent.internal_items[index].child_block,
            model::child_span(parent.internal_items, index, span.upper, parent.level as nat),
            key,
            change,
            generation,
            new_child,
            new_split,
            start,
            middle,
        );
    }
}

pub proof fn lemma_insertion_cost(
    before: Map<u64, Seq<u8>>,
    after: Map<u64, Seq<u8>>,
    root: u64,
    key: BafsKey,
    value: Seq<u8>,
    generation: u64,
    new_root: u64,
    start: int,
    end: int,
)
    requires
        insertion_written(before, after, root, key, value, generation, new_root, start, end),
    ensures
        end == start + insertion_cost(before, root, key, value),
{
    let (left, split, middle) = choose|left: u64, split: Option<SplitResult>, middle: int| #[trigger]
        root_written(after, left, split, generation, new_root, middle, end) && path_written(
            before,
            after,
            root,
            model::root_span(),
            key,
            Some(value),
            generation,
            left,
            split,
            start,
            middle,
        );
    lemma_path_cost(
        before,
        after,
        root,
        model::root_span(),
        key,
        Some(value),
        generation,
        left,
        split,
        start,
        middle,
    );
}

pub proof fn lemma_deletion_cost(
    before: Map<u64, Seq<u8>>,
    after: Map<u64, Seq<u8>>,
    root: u64,
    key: BafsKey,
    generation: u64,
    new_root: u64,
    start: int,
    end: int,
)
    requires
        deletion_written(before, after, root, key, generation, new_root, start, end),
    ensures
        end == start + deletion_cost(before, root, key),
{
    lemma_path_cost(
        before,
        after,
        root,
        model::root_span(),
        key,
        None,
        generation,
        new_root,
        None,
        start,
        end,
    );
}

/// No way to a key is longer than the tree is high.
pub proof fn lemma_cost_bounds(
    blocks: Map<u64, Seq<u8>>,
    address: u64,
    span: Span,
    key: BafsKey,
    value: Seq<u8>,
)
    requires
        model::checked_node(blocks, address, span) is Ok,
    ensures
        ({
            let level = model::checked_node(blocks, address, span)->Ok_0.level;
            &&& path_cost(blocks, address, span, key, value).0 <= 2 * level + 2
            &&& model::path_to(blocks, address, span, key.rank()).len() <= level + 1
        }),
    decreases span.levels,
{
    let top = model::checked_node(blocks, address, span)->Ok_0;
    if top.level > 0 {
        let index = model::child_index(top.internal_items, key.rank());
        let child = top.internal_items[index].child_block;
        let child_span = model::child_span(
            top.internal_items,
            index,
            span.upper,
            top.level as nat,
        );
        let below = path_cost(blocks, child, child_span, key, value);
        if model::checked_node(blocks, child, child_span) is Ok {
            lemma_cost_bounds(blocks, child, child_span, key, value);
            assert(model::checked_node(blocks, child, child_span)->Ok_0.level < top.level);
            assert(below.0 <= 2 * top.level);
            assert(model::path_to(blocks, child, child_span, key.rank()).len() <= top.level);
        } else {
            assert(below.0 == 0);
            assert(model::path_to(blocks, child, child_span, key.rank()).len() == 0);
        }
        assert(path_cost(blocks, address, span, key, value).0 <= below.0 + 2);
    }
}

/// Where the root is a leaf and the items fit into it, an insertion writes one
/// block, the next one: a leaf with those items. An item with a value of at most
/// 4047 bytes fits into an empty leaf.
pub proof fn law_insertion_into_single_leaf(
    before: Map<u64, Seq<u8>>,
    after: Map<u64, Seq<u8>>,
    root: u64,
    key: BafsKey,
    value: Seq<u8>,
    generation: u64,
    new_root: u64,
    start: int,
    end: int,
)
    requires
        insertion_written(before, after, root, key, value, generation, new_root, start, end),
        model::checked_node(before, root, model::root_span()) is Ok,
        tree::root_level(before, root) == 0,
        ({
            let items = store::node_at(before, root)->Ok_0.leaf_items;
            node::leaf_size(model::leaf_put(items, key, value)) <= 4096 || items.len() == 0
                && value.len() <= tree::max_value_size()
        }),
    ensures
        new_root == start,
        end == start + 1,
        holds_leaf(
            after,
            new_root,
            model::leaf_put(store::node_at(before, root)->Ok_0.leaf_items, key, value),
        ),
{
    let items = store::node_at(before, root)->Ok_0.leaf_items;
    if items.len() == 0 {
        let put = model::leaf_put(items, key, value);
        assert(put =~= seq![LeafEntry { key, value }]);
        node::lemma_values_len_of_prefix(put, 0);
        assert(put.take(0) =~= Seq::empty());
        assert(put.take(1) =~= put);
    }
}

/// Putting an item of at most 4047 bytes into an empty tree, whose leaf is in the
/// cache, succeeds on any device. It takes one block, the next one, supersedes the
/// empty leaf, and the item is found afterwards.
pub proof fn law_insertion_into_empty_tree(
    disk: Seq<u8>,
    old_cache: Map<u64, Vec<u8>>,
    new_cache: Map<u64, Vec<u8>>,
    reliable: bool,
    root: u64,
    key: BafsKey,
    value: Seq<u8>,
    generation: u64,
    old_next: u64,
    new_next: u64,
    old_freed: Seq<u64>,
    new_freed: Seq<u64>,
    result: Result<u64, BafsError>,
)
    requires
        holds_leaf(store::visible_blocks(disk, old_cache), root, Seq::empty()),
        old_cache.contains_key(root),
        value.len() <= tree::max_value_size(),
        root < old_next,
        tree::insertion_outcome(
            disk,
            old_cache,
            new_cache,
            reliable,
            root,
            key,
            value,
            old_next,
            new_next,
            old_freed,
            new_freed,
            result,
        ),
        result matches Ok(new_root) ==> insertion_written(
            store::visible_blocks(disk, old_cache),
            store::visible_blocks(disk, new_cache),
            root,
            key,
            value,
            generation,
            new_root,
            old_next as int,
            new_next as int,
        ),
    ensures
        result == Ok::<u64, BafsError>(old_next),
        new_next == old_next + 1,
        new_freed == old_freed.push(root),
        holds_leaf(
            store::visible_blocks(disk, new_cache),
            old_next,
            seq![LeafEntry { key, value }],
        ),
        model::tree_get(store::visible_blocks(disk, new_cache), old_next, key) == Ok::<
            Option<Seq<u8>>,
            BafsError,
        >(Some(value)),
{
    let before = store::visible_blocks(disk, old_cache);
    let after = store::visible_blocks(disk, new_cache);
    let put = model::leaf_put(Seq::empty(), key, value);
    law_empty_tree_answers(before, old_cache.dom(), root, key, key, key);
    assert(put =~= seq![LeafEntry { key, value }]);
    node::lemma_values_len_of_prefix(put, 0);
    assert(put.take(0) =~= Seq::empty());
    assert(put.take(1) =~= put);
    assert(tree::insert_error(before, root, key, value) is None);
    assert(result is Ok);
    law_insertion_into_single_leaf(
        before,
        after,
        root,
        key,
        value,
        generation,
        result->Ok_0,
        old_next as int,
        new_next as int,
    );
    assert(model::path_to(before, root, model::root_span(), key.rank()) =~= seq![root]);
    assert(new_freed =~= old_freed.push(root));
    assert(model::tree_confined(before, root, 0, old_next as int));
    assert(tree::tree_changed(
        before,
        root,
        after,
        old_next,
        key,
        Some(value),
        0,
        old_next as int,
        new_next as int,
    ));
}

/// An empty leaf is an empty tree: no key is found in it, and every range of it is
/// empty. As long as the leaf is in the cache, neither a lookup nor a scan asks the
/// device for anything.
pub proof fn law_empty_tree_answers(
    blocks: Map<u64, Seq<u8>>,
    cached: Set<u64>,
    root: u64,
    target: BafsKey,
    min_key: BafsKey,
    max_key: BafsKey,
)
    requires
        holds_leaf(blocks, root, Seq::empty()),
        cached.contains(root),
    ensures
        model::tree_get(blocks, root, target) == Ok::<Option<Seq<u8>>, BafsError>(None),
        model::path_cached(blocks, cached, root, model::root_span(), target.rank()),
        model::tree_range(blocks, root, min_key, max_key) == Ok::<Seq<LeafEntry>, BafsError>(
            Seq::empty(),
        ),
        model::range_cached(
            blocks,
            cached,
            root,
            model::root_span(),
            min_key.rank(),
            max_key.rank(),
        ),
{
    reveal(model::path_cached);
    reveal(model::range_cached);
    model::lemma_leaf_absent(Seq::empty(), target);
    assert(node::values_len(Seq::<LeafEntry>::empty()) == 0);
}

} // verus!
