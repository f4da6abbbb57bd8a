//! What a tree stands for: how a key is found, and what changes when a node on
//! the way to it is replaced.

use vstd::prelude::*;
use crate::checksum;
use crate::error::BafsError;
use super::key;
use super::key::BafsKey;
use super::node;
use super::node::{BafsInternalItem, LeafEntry, NodeModel};
use super::store;

verus! {

broadcast use super::key::lemma_rank_bounds;

/// One more than the greatest level of a node.
pub open spec fn level_limit() -> nat {
    255
}

/// What may stand in a subtree: keys with a rank in `lower .. upper`, in nodes
/// of a level below `levels`.
pub struct Span {
    pub lower: int,
    pub upper: int,
    pub levels: nat,
}

/// The span of a whole tree.
pub open spec fn root_span() -> Span {
    Span { lower: 0, upper: key::rank_limit(), levels: level_limit() }
}

/// The numbers grow strictly.
pub open spec fn sorted(ranks: Seq<int>) -> bool {
    forall|i: int, j: int| 0 <= i < j < ranks.len() ==> ranks[i] < ranks[j]
}

/// All numbers lie in `lower .. upper`.
pub open spec fn within(ranks: Seq<int>, lower: int, upper: int) -> bool {
    forall|i: int| 0 <= i < ranks.len() ==> lower <= #[trigger] ranks[i] < upper
}

/// How many of the growing numbers `ranks` are below `rank`.
pub open spec fn lower_bound(ranks: Seq<int>, rank: int) -> int
    decreases ranks.len(),
{
    if ranks.len() == 0 {
        0
    } else if ranks.last() < rank {
        ranks.len() as int
    } else {
        lower_bound(ranks.drop_last(), rank)
    }
}

/// The ranks of the keys in a leaf.
pub open spec fn leaf_ranks(items: Seq<LeafEntry>) -> Seq<int> {
    items.map_values(|item: LeafEntry| item.key.rank())
}

/// The ranks of the separators in an internal node.
pub open spec fn separator_ranks(items: Seq<BafsInternalItem>) -> Seq<int> {
    items.map_values(|item: BafsInternalItem| item.key.rank())
}

/// Whether `node` may stand at the top of a subtree with the given span.
pub open spec fn node_ok(node: NodeModel, span: Span) -> bool {
    &&& node.level < span.levels
    &&& node.level == 0 ==> {
        &&& sorted(leaf_ranks(node.leaf_items))
        &&& within(leaf_ranks(node.leaf_items), span.lower, span.upper)
        &&& node::leaf_size(node.leaf_items) <= 4096
    }
    &&& node.level > 0 ==> {
        &&& node.internal_items.len() > 0
        &&& sorted(separator_ranks(node.internal_items))
        &&& within(separator_ranks(node.internal_items), span.lower, span.upper)
    }
}

/// The node at the top of a subtree with the given span.
pub open spec fn checked_node(blocks: Map<u64, Seq<u8>>, address: u64, span: Span) -> Result<
    NodeModel,
    BafsError,
> {
    match store::node_at(blocks, address) {
        Err(error) => Err(error),
        Ok(node) => if node_ok(node, span) {
            Ok(node)
        } else {
            Err(BafsError::CorruptedStructure)
        },
    }
}

/// The child that is responsible for `rank`: the last one whose separator is
/// not greater, or else the first one.
pub open spec fn child_index(items: Seq<BafsInternalItem>, rank: int) -> int {
    let count = lower_bound(separator_ranks(items), rank + 1);
    if count == 0 {
        0
    } else {
        count - 1
    }
}

/// The span of the child at `index`, where `upper` bounds all children and
/// `level` is the level of their parent.
pub open spec fn child_span(
    items: Seq<BafsInternalItem>,
    index: int,
    upper: int,
    level: nat,
) -> Span {
    Span {
        lower: items[index].key.rank(),
        upper: if index + 1 < items.len() {
            items[index + 1].key.rank()
        } else {
            upper
        },
        levels: level,
    }
}

/// The items of the leaf that is responsible for `rank`.
pub open spec fn leaf_for(blocks: Map<u64, Seq<u8>>, address: u64, span: Span, rank: int) -> Result<
    Seq<LeafEntry>,
    BafsError,
>
    decreases span.levels,
{
    match checked_node(blocks, address, span) {
        Err(error) => Err(error),
        Ok(node) => if node.level == 0 {
            Ok(node.leaf_items)
        } else {
            let index = child_index(node.internal_items, rank);
            leaf_for(
                blocks,
                node.internal_items[index].child_block,
                child_span(node.internal_items, index, span.upper, node.level as nat),
                rank,
            )
        },
    }
}

/// The value of `target` among the items of a leaf.
pub open spec fn leaf_get(items: Seq<LeafEntry>, target: BafsKey) -> Option<Seq<u8>> {
    let position = lower_bound(leaf_ranks(items), target.rank());
    if position < items.len() && items[position].key == target {
        Some(items[position].value)
    } else {
        None
    }
}

/// The items of a leaf once `target` has `value`.
pub open spec fn leaf_put(items: Seq<LeafEntry>, target: BafsKey, value: Seq<u8>) -> Seq<
    LeafEntry,
> {
    let position = lower_bound(leaf_ranks(items), target.rank());
    if position < items.len() && items[position].key == target {
        items.update(position, LeafEntry { key: target, value })
    } else {
        items.insert(position, LeafEntry { key: target, value })
    }
}

/// The items of a leaf without `target`.
pub open spec fn leaf_remove(items: Seq<LeafEntry>, target: BafsKey) -> Seq<LeafEntry> {
    items.remove(lower_bound(leaf_ranks(items), target.rank()))
}

/// Whether the items can be divided into two leaves that fit into a block each.
pub open spec fn leaf_splittable(items: Seq<LeafEntry>) -> bool {
    exists|split: int|
        0 < split < items.len() && node::leaf_size(#[trigger] items.take(split)) <= 4096
            && node::leaf_size(items.skip(split)) <= 4096
}

/// The first place from `cut` on to the left where the left part fits into a block.
pub open spec fn cut_moved_left(items: Seq<LeafEntry>, cut: int) -> int
    decreases cut,
{
    if cut > 1 && node::leaf_size(items.take(cut)) > 4096 {
        cut_moved_left(items, cut - 1)
    } else {
        cut
    }
}

/// The first place from `cut` on to the right where the right part fits into a
/// block.
pub open spec fn cut_moved_right(items: Seq<LeafEntry>, cut: int) -> int
    decreases items.len() - cut,
{
    if cut < items.len() - 1 && node::leaf_size(items.skip(cut)) > 4096 {
        cut_moved_right(items, cut + 1)
    } else {
        cut
    }
}

/// Where the items of a leaf are cut that do not fit into a block: in the middle, or
/// as near to it as the sizes of the two parts allow.
pub open spec fn leaf_cut_place(items: Seq<LeafEntry>) -> int {
    cut_moved_right(items, cut_moved_left(items, items.len() as int / 2))
}

/// Whether the items fit into one leaf or two.
pub open spec fn leaf_storable(items: Seq<LeafEntry>) -> bool {
    node::leaf_size(items) <= 4096 || leaf_splittable(items)
}

/// The value of `target` in a subtree.
pub open spec fn subtree_get(
    blocks: Map<u64, Seq<u8>>,
    address: u64,
    span: Span,
    target: BafsKey,
) -> Result<Option<Seq<u8>>, BafsError> {
    match leaf_for(blocks, address, span, target.rank()) {
        Err(error) => Err(error),
        Ok(items) => Ok(leaf_get(items, target)),
    }
}

/// The value of `target` in the tree whose root is at `root`.
pub open spec fn tree_get(blocks: Map<u64, Seq<u8>>, root: u64, target: BafsKey) -> Result<
    Option<Seq<u8>>,
    BafsError,
> {
    subtree_get(blocks, root, root_span(), target)
}

/// Every node of a subtree that can be reached lies in a block from `base` on
/// and below `bound`.
pub open spec fn confined(
    blocks: Map<u64, Seq<u8>>,
    address: u64,
    span: Span,
    base: int,
    bound: int,
) -> bool
    decreases span.levels,
{
    &&& base <= address < bound
    &&& match checked_node(blocks, address, span) {
        Err(_) => true,
        Ok(node) => node.level > 0 ==> forall|i: int|
            0 <= i < node.internal_items.len() ==> confined(
                blocks,
                (#[trigger] node.internal_items[i]).child_block,
                child_span(node.internal_items, i, span.upper, node.level as nat),
                base,
                bound,
            ),
    }
}

/// Every node of the tree that can be reached lies in a block from `base` on
/// and below `bound`.
pub open spec fn tree_confined(
    blocks: Map<u64, Seq<u8>>,
    root: u64,
    base: int,
    bound: int,
) -> bool {
    confined(blocks, root, root_span(), base, bound)
}

/// Every lookup in the tree succeeds: no node is damaged.
pub open spec fn tree_sound(blocks: Map<u64, Seq<u8>>, root: u64) -> bool {
    forall|target: BafsKey| #[trigger] tree_get(blocks, root, target) is Ok
}

/// The items of the tree.
pub open spec fn tree_map(blocks: Map<u64, Seq<u8>>, root: u64) -> Map<BafsKey, Seq<u8>> {
    Map::new(
        |target: BafsKey| tree_get(blocks, root, target) matches Ok(Some(_)),
        |target: BafsKey| tree_get(blocks, root, target)->Ok_0->Some_0,
    )
}

/// The blocks of the nodes on the way to `rank`, the leaf first.
pub open spec fn path_to(blocks: Map<u64, Seq<u8>>, address: u64, span: Span, rank: int) -> Seq<
    u64,
>
    decreases span.levels,
{
    match checked_node(blocks, address, span) {
        Err(_) => Seq::empty(),
        Ok(node) => if node.level == 0 {
            seq![address]
        } else {
            let index = child_index(node.internal_items, rank);
            path_to(
                blocks,
                node.internal_items[index].child_block,
                child_span(node.internal_items, index, span.upper, node.level as nat),
                rank,
            ).push(address)
        },
    }
}

/// Every node on the way to `rank` stands in one of the blocks `cached`.
#[verifier::opaque]
pub open spec fn path_cached(
    blocks: Map<u64, Seq<u8>>,
    cached: Set<u64>,
    address: u64,
    span: Span,
    rank: int,
) -> bool
    decreases span.levels,
{
    &&& cached.contains(address)
    &&& match checked_node(blocks, address, span) {
        Err(_) => true,
        Ok(node) => node.level > 0 ==> {
            let index = child_index(node.internal_items, rank);
            path_cached(
                blocks,
                cached,
                node.internal_items[index].child_block,
                child_span(node.internal_items, index, span.upper, node.level as nat),
                rank,
            )
        },
    }
}

/// The same blocks stand at the addresses from `base` on and below `bound`.
pub open spec fn agree(
    left: Map<u64, Seq<u8>>,
    right: Map<u64, Seq<u8>>,
    base: int,
    bound: int,
) -> bool {
    forall|address: u64|
        base <= address < bound ==> #[trigger] left.contains_key(address) == right.contains_key(
            address,
        ) && (left.contains_key(address) ==> left[address] == right[address])
}

pub proof fn lemma_cow_frame_agrees(
    disk: Seq<u8>,
    before: Map<u64, Vec<u8>>,
    after: Map<u64, Vec<u8>>,
    start: int,
    end: int,
)
    requires
        store::cow_frame(before, after, start, end),
    ensures
        forall|base: int|
            #![trigger agree(
                store::visible_blocks(disk, before),
                store::visible_blocks(disk, after),
                base,
                start,
            )]
            agree(
                store::visible_blocks(disk, before),
                store::visible_blocks(disk, after),
                base,
                start,
            ),
{
    let left = store::visible_blocks(disk, before);
    let right = store::visible_blocks(disk, after);
    assert forall|address: u64| address < start implies #[trigger] left.contains_key(address)
        == right.contains_key(address) && (left.contains_key(address) ==> left[address]
        == right[address]) by {
        assert(after.contains_key(address) == before.contains_key(address));
    }
}

pub proof fn lemma_lower_bound(ranks: Seq<int>, rank: int)
    requires
        sorted(ranks),
    ensures
        0 <= lower_bound(ranks, rank) <= ranks.len(),
        forall|i: int| 0 <= i < lower_bound(ranks, rank) ==> #[trigger] ranks[i] < rank,
        forall|i: int| lower_bound(ranks, rank) <= i < ranks.len() ==> #[trigger] ranks[i] >= rank,
    decreases ranks.len(),
{
    if ranks.len() > 0 {
        let shorter = ranks.drop_last();
        assert(sorted(shorter));
        lemma_lower_bound(shorter, rank);
        assert forall|i: int| 0 <= i < shorter.len() implies ranks[i] == shorter[i] by {}
    }
}

pub proof fn lemma_lower_bound_is(ranks: Seq<int>, rank: int, position: int)
    requires
        sorted(ranks),
        0 <= position <= ranks.len(),
        position > 0 ==> ranks[position - 1] < rank,
        position < ranks.len() ==> ranks[position] >= rank,
    ensures
        lower_bound(ranks, rank) == position,
{
    lemma_lower_bound(ranks, rank);
}

/// Whether the child at `index` is responsible for `rank`.
pub open spec fn responsible(items: Seq<BafsInternalItem>, rank: int, index: int) -> bool {
    &&& 0 <= index < items.len()
    &&& index == 0 || items[index].key.rank() <= rank
    &&& index + 1 == items.len() || rank < items[index + 1].key.rank()
}

pub proof fn lemma_child_index(items: Seq<BafsInternalItem>, rank: int)
    requires
        items.len() > 0,
        sorted(separator_ranks(items)),
    ensures
        responsible(items, rank, child_index(items, rank)),
{
    let ranks = separator_ranks(items);
    lemma_lower_bound(ranks, rank + 1);
    let index = child_index(items, rank);
    assert(ranks[index] == items[index].key.rank());
    if index + 1 < items.len() {
        assert(ranks[index + 1] == items[index + 1].key.rank());
    }
}

pub proof fn lemma_child_index_is(items: Seq<BafsInternalItem>, rank: int, index: int)
    requires
        sorted(separator_ranks(items)),
        responsible(items, rank, index),
    ensures
        child_index(items, rank) == index,
{
    let ranks = separator_ranks(items);
    assert(ranks[index] == items[index].key.rank());
    if index + 1 < items.len() {
        assert(ranks[index + 1] == items[index + 1].key.rank());
    }
    if index == 0 && rank < ranks[0] {
        lemma_lower_bound_is(ranks, rank + 1, 0);
    } else {
        lemma_lower_bound_is(ranks, rank + 1, index + 1);
    }
}

/// The value of `target` below a list of siblings, where `upper` bounds all of
/// them and `level` is the level of their parent.
pub open spec fn siblings_get(
    blocks: Map<u64, Seq<u8>>,
    items: Seq<BafsInternalItem>,
    upper: int,
    level: nat,
    target: BafsKey,
) -> Result<Option<Seq<u8>>, BafsError> {
    let index = child_index(items, target.rank());
    subtree_get(blocks, items[index].child_block, child_span(items, index, upper, level), target)
}

/// `confined` for every one of a list of siblings.
pub open spec fn siblings_confined(
    blocks: Map<u64, Seq<u8>>,
    items: Seq<BafsInternalItem>,
    upper: int,
    level: nat,
    base: int,
    bound: int,
) -> bool {
    forall|i: int|
        0 <= i < items.len() ==> confined(
            blocks,
            (#[trigger] items[i]).child_block,
            child_span(items, i, upper, level),
            base,
            bound,
        )
}

pub proof fn lemma_node_at_agrees(
    left: Map<u64, Seq<u8>>,
    right: Map<u64, Seq<u8>>,
    address: u64,
    base: int,
    bound: int,
)
    requires
        agree(left, right, base, bound),
        base <= address < bound,
    ensures
        store::node_at(left, address) == store::node_at(right, address),
{
    assert(left.contains_key(address) == right.contains_key(address));
}

/// A subtree does not depend on blocks that none of its nodes lies in.
pub proof fn lemma_leaf_for_agrees(
    left: Map<u64, Seq<u8>>,
    right: Map<u64, Seq<u8>>,
    address: u64,
    span: Span,
    base: int,
    bound: int,
    rank: int,
)
    requires
        agree(left, right, base, bound),
        confined(left, address, span, base, bound),
    ensures
        leaf_for(right, address, span, rank) == leaf_for(left, address, span, rank),
        path_to(right, address, span, rank) == path_to(left, address, span, rank),
    decreases span.levels,
{
    lemma_node_at_agrees(left, right, address, base, bound);
    match checked_node(left, address, span) {
        Err(_) => {},
        Ok(node) => {
            if node.level > 0 {
                let index = child_index(node.internal_items, rank);
                lemma_child_index(node.internal_items, rank);
                let inner = child_span(node.internal_items, index, span.upper, node.level as nat);
                lemma_leaf_for_agrees(
                    left,
                    right,
                    node.internal_items[index].child_block,
                    inner,
                    base,
                    bound,
                    rank,
                );
            }
        },
    }
}

pub proof fn lemma_confined_agrees(
    left: Map<u64, Seq<u8>>,
    right: Map<u64, Seq<u8>>,
    address: u64,
    span: Span,
    base: int,
    bound: int,
    new_bound: int,
)
    requires
        agree(left, right, base, bound),
        confined(left, address, span, base, bound),
        bound <= new_bound,
    ensures
        confined(right, address, span, base, new_bound),
    decreases span.levels,
{
    lemma_node_at_agrees(left, right, address, base, bound);
    match checked_node(left, address, span) {
        Err(_) => {},
        Ok(node) => {
            if node.level > 0 {
                assert forall|i: int| 0 <= i < node.internal_items.len() implies confined(
                    right,
                    (#[trigger] node.internal_items[i]).child_block,
                    child_span(node.internal_items, i, span.upper, node.level as nat),
                    base,
                    new_bound,
                ) by {
                    lemma_confined_agrees(
                        left,
                        right,
                        node.internal_items[i].child_block,
                        child_span(node.internal_items, i, span.upper, node.level as nat),
                        base,
                        bound,
                        new_bound,
                    );
                }
            }
        },
    }
}

/// What lies between narrow bounds lies between wide ones.
pub proof fn lemma_confined_widens(
    blocks: Map<u64, Seq<u8>>,
    address: u64,
    span: Span,
    base: int,
    bound: int,
    new_base: int,
    new_bound: int,
)
    requires
        confined(blocks, address, span, base, bound),
        new_base <= base,
        bound <= new_bound,
    ensures
        confined(blocks, address, span, new_base, new_bound),
    decreases span.levels,
{
    match checked_node(blocks, address, span) {
        Err(_) => {},
        Ok(node) => {
            if node.level > 0 {
                assert forall|i: int| 0 <= i < node.internal_items.len() implies confined(
                    blocks,
                    (#[trigger] node.internal_items[i]).child_block,
                    child_span(node.internal_items, i, span.upper, node.level as nat),
                    new_base,
                    new_bound,
                ) by {
                    lemma_confined_widens(
                        blocks,
                        node.internal_items[i].child_block,
                        child_span(node.internal_items, i, span.upper, node.level as nat),
                        base,
                        bound,
                        new_base,
                        new_bound,
                    );
                }
            }
        },
    }
}

/// A tree keeps its items when only blocks outside it change.
pub proof fn lemma_tree_agrees(
    left: Map<u64, Seq<u8>>,
    right: Map<u64, Seq<u8>>,
    root: u64,
    base: int,
    bound: int,
    new_bound: int,
)
    requires
        agree(left, right, base, bound),
        tree_confined(left, root, base, bound),
        bound <= new_bound,
    ensures
        tree_confined(right, root, base, new_bound),
        forall|target: BafsKey| #[trigger]
            tree_get(right, root, target) == tree_get(left, root, target),
        tree_map(right, root) == tree_map(left, root),
        tree_sound(left, root) ==> tree_sound(right, root),
        store::node_at(right, root) == store::node_at(left, root),
{
    lemma_confined_agrees(left, right, root, root_span(), base, bound, new_bound);
    lemma_node_at_agrees(left, right, root, base, bound);
    assert forall|target: BafsKey| #[trigger]
        tree_get(right, root, target) == tree_get(left, root, target) by {
        lemma_leaf_for_agrees(left, right, root, root_span(), base, bound, target.rank());
    }
    assert(tree_map(right, root) =~= tree_map(left, root));
    if tree_sound(left, root) {
        assert forall|target: BafsKey| #[trigger] tree_get(right, root, target) is Ok by {
            assert(tree_get(left, root, target) is Ok);
        }
    }
}

pub proof fn lemma_siblings_agree(
    left: Map<u64, Seq<u8>>,
    right: Map<u64, Seq<u8>>,
    items: Seq<BafsInternalItem>,
    upper: int,
    level: nat,
    base: int,
    bound: int,
    new_bound: int,
)
    requires
        agree(left, right, base, bound),
        siblings_confined(left, items, upper, level, base, bound),
        items.len() > 0,
        sorted(separator_ranks(items)),
        bound <= new_bound,
    ensures
        siblings_confined(right, items, upper, level, base, new_bound),
        forall|target: BafsKey| #[trigger]
            siblings_get(right, items, upper, level, target) == siblings_get(
                left,
                items,
                upper,
                level,
                target,
            ),
{
    assert forall|i: int| 0 <= i < items.len() implies confined(
        right,
        (#[trigger] items[i]).child_block,
        child_span(items, i, upper, level),
        base,
        new_bound,
    ) by {
        lemma_confined_agrees(
            left,
            right,
            items[i].child_block,
            child_span(items, i, upper, level),
            base,
            bound,
            new_bound,
        );
    }
    assert forall|target: BafsKey| #[trigger]
        siblings_get(right, items, upper, level, target) == siblings_get(
            left,
            items,
            upper,
            level,
            target,
        ) by {
        lemma_child_index(items, target.rank());
        let index = child_index(items, target.rank());
        lemma_leaf_for_agrees(
            left,
            right,
            items[index].child_block,
            child_span(items, index, upper, level),
            base,
            bound,
            target.rank(),
        );
    }
}

/// Where a node may stand in two spans with the same upper bound, its subtree
/// is the same in both.
pub proof fn lemma_span_irrelevant(
    blocks: Map<u64, Seq<u8>>,
    address: u64,
    first: Span,
    second: Span,
    base: int,
    bound: int,
)
    requires
        checked_node(blocks, address, first) is Ok,
        checked_node(blocks, address, second) is Ok,
        first.upper == second.upper,
    ensures
        confined(blocks, address, first, base, bound) == confined(
            blocks,
            address,
            second,
            base,
            bound,
        ),
        forall|target: BafsKey| #[trigger]
            subtree_get(blocks, address, first, target) == subtree_get(
                blocks,
                address,
                second,
                target,
            ),
{
}

/// The lookup of a key below a node is the lookup below its items.
pub proof fn lemma_internal_node(
    blocks: Map<u64, Seq<u8>>,
    address: u64,
    span: Span,
    base: int,
    bound: int,
)
    requires
        checked_node(blocks, address, span) is Ok,
        checked_node(blocks, address, span)->Ok_0.level > 0,
    ensures
        ({
            let node = checked_node(blocks, address, span)->Ok_0;
            &&& forall|target: BafsKey| #[trigger]
                subtree_get(blocks, address, span, target) == siblings_get(
                    blocks,
                    node.internal_items,
                    span.upper,
                    node.level as nat,
                    target,
                )
            &&& confined(blocks, address, span, base, bound) <==> base <= address < bound
                && siblings_confined(
                blocks,
                node.internal_items,
                span.upper,
                node.level as nat,
                base,
                bound,
            )
        }),
{
}

/// `items` with the child at `index` replaced by `parts`.
pub open spec fn splice(
    items: Seq<BafsInternalItem>,
    index: int,
    parts: Seq<BafsInternalItem>,
) -> Seq<BafsInternalItem> {
    items.take(index) + parts + items.skip(index + 1)
}

/// The upper bound of the child at `index`.
pub open spec fn child_upper(items: Seq<BafsInternalItem>, index: int, upper: int) -> int {
    if index + 1 < items.len() {
        items[index + 1].key.rank()
    } else {
        upper
    }
}

/// The parts can take the place of the child at `index`: their separators grow,
/// start no later than the child's, and later only for the first child.
pub open spec fn parts_fit(
    items: Seq<BafsInternalItem>,
    index: int,
    upper: int,
    parts: Seq<BafsInternalItem>,
) -> bool {
    &&& 0 <= index < items.len()
    &&& parts.len() > 0
    &&& sorted(separator_ranks(parts))
    &&& within(
        separator_ranks(parts),
        parts[0].key.rank(),
        child_upper(items, index, upper),
    )
    &&& parts[0].key.rank() <= items[index].key.rank()
    &&& index > 0 ==> parts[0].key.rank() == items[index].key.rank()
}

pub proof fn lemma_splice_sorted(
    items: Seq<BafsInternalItem>,
    index: int,
    upper: int,
    lower: int,
    parts: Seq<BafsInternalItem>,
)
    requires
        sorted(separator_ranks(items)),
        within(separator_ranks(items), lower, upper),
        parts_fit(items, index, upper, parts),
    ensures
        sorted(separator_ranks(splice(items, index, parts))),
        within(
            separator_ranks(splice(items, index, parts)),
            if parts[0].key.rank() < lower {
                parts[0].key.rank()
            } else {
                lower
            },
            upper,
        ),
{
    let result = splice(items, index, parts);
    let old_ranks = separator_ranks(items);
    let part_ranks = separator_ranks(parts);
    let ranks = separator_ranks(result);
    assert forall|i: int| 0 <= i < ranks.len() implies #[trigger] ranks[i] == (if i < index {
        old_ranks[i]
    } else if i < index + parts.len() {
        part_ranks[i - index]
    } else {
        old_ranks[i - parts.len() + 1]
    }) by {}
    assert(old_ranks[index] == items[index].key.rank());
    assert(part_ranks[0] == parts[0].key.rank());
    if index + 1 < items.len() {
        assert(old_ranks[index + 1] == items[index + 1].key.rank());
    }
    assert forall|i: int| 0 <= i < part_ranks.len() implies part_ranks[0] <= #[trigger] part_ranks[i]
        < child_upper(items, index, upper) by {}
    assert forall|i: int, j: int| 0 <= i < j < ranks.len() implies ranks[i] < ranks[j] by {
        if i < index && index <= j < index + parts.len() {
            assert(old_ranks[i] < old_ranks[index]);
        } else if index <= i < index + parts.len() && j >= index + parts.len() {
            assert(old_ranks[index + 1] <= old_ranks[j - parts.len() + 1]);
        }
    }
    assert forall|i: int| 0 <= i < ranks.len() implies (if parts[0].key.rank() < lower {
        parts[0].key.rank()
    } else {
        lower
    }) <= #[trigger] ranks[i] < upper by {
        assert(child_upper(items, index, upper) <= upper);
    }
}

/// Lookups after a child was replaced by `parts`: those that went to the child
/// go to the parts, all others stay where they were.
#[verifier::spinoff_prover]
#[verifier::rlimit(60)]
pub proof fn lemma_splice_get(
    left: Map<u64, Seq<u8>>,
    right: Map<u64, Seq<u8>>,
    items: Seq<BafsInternalItem>,
    index: int,
    lower: int,
    upper: int,
    level: nat,
    parts: Seq<BafsInternalItem>,
    base: int,
    bound: int,
    target: BafsKey,
)
    requires
        agree(left, right, base, bound),
        sorted(separator_ranks(items)),
        within(separator_ranks(items), lower, upper),
        parts_fit(items, index, upper, parts),
        siblings_confined(left, items, upper, level, base, bound),
        target.rank() < upper,
    ensures
        siblings_get(right, splice(items, index, parts), upper, level, target) == if child_index(
            items,
            target.rank(),
        ) == index {
            siblings_get(right, parts, child_upper(items, index, upper), level, target)
        } else {
            siblings_get(left, items, upper, level, target)
        },
{
    let rank = target.rank();
    let result = splice(items, index, parts);
    lemma_splice_sorted(items, index, upper, lower, parts);
    lemma_child_index(items, rank);
    lemma_child_index(parts, rank);
    let from = child_index(items, rank);
    let part = child_index(parts, rank);
    let ranks = separator_ranks(items);
    let part_ranks = separator_ranks(parts);
    assert(ranks[from] == items[from].key.rank());
    assert(ranks[index] == items[index].key.rank());
    assert(part_ranks[0] == parts[0].key.rank());
    if from == index {
        lemma_child_index_is(result, rank, index + part);
        assert(result[index + part] == parts[part]);
        assert(child_span(result, index + part, upper, level) == child_span(
            parts,
            part,
            child_upper(items, index, upper),
            level,
        ));
    } else {
        let to = if from < index {
            from
        } else {
            from + parts.len() - 1
        };
        if from + 1 < items.len() {
            assert(ranks[from + 1] == items[from + 1].key.rank());
        }
        assert(result[to] == items[from]);
        if to + 1 < result.len() {
            if from + 1 == index {
                assert(result[to + 1] == parts[0]);
                assert(index > 0);
            } else {
                assert(result[to + 1] == items[from + 1]);
            }
        }
        lemma_child_index_is(result, rank, to);
        assert(child_span(result, to, upper, level) == child_span(items, from, upper, level));
        lemma_leaf_for_agrees(
            left,
            right,
            items[from].child_block,
            child_span(items, from, upper, level),
            base,
            bound,
            rank,
        );
    }
}

#[verifier::spinoff_prover]
#[verifier::rlimit(40)]
pub proof fn lemma_splice_confined(
    left: Map<u64, Seq<u8>>,
    right: Map<u64, Seq<u8>>,
    items: Seq<BafsInternalItem>,
    index: int,
    upper: int,
    level: nat,
    parts: Seq<BafsInternalItem>,
    base: int,
    bound: int,
    new_bound: int,
)
    requires
        agree(left, right, base, bound),
        parts_fit(items, index, upper, parts),
        siblings_confined(left, items, upper, level, base, bound),
        siblings_confined(
            right,
            parts,
            child_upper(items, index, upper),
            level,
            base,
            new_bound,
        ),
        bound <= new_bound,
    ensures
        siblings_confined(right, splice(items, index, parts), upper, level, base, new_bound),
{
    let result = splice(items, index, parts);
    assert forall|i: int| 0 <= i < result.len() implies confined(
        right,
        (#[trigger] result[i]).child_block,
        child_span(result, i, upper, level),
        base,
        new_bound,
    ) by {
        if index <= i < index + parts.len() {
            let part = i - index;
            assert(result[i] == parts[part]);
            assert(child_span(result, i, upper, level) == child_span(
                parts,
                part,
                child_upper(items, index, upper),
                level,
            ));
            assert(confined(
                right,
                parts[part].child_block,
                child_span(parts, part, child_upper(items, index, upper), level),
                base,
                new_bound,
            ));
        } else {
            let from = if i < index {
                i
            } else {
                i - parts.len() + 1
            };
            assert(result[i] == items[from]);
            if i + 1 < result.len() {
                if from + 1 == index {
                    assert(result[i + 1] == parts[0]);
                } else {
                    assert(result[i + 1] == items[from + 1]);
                }
            }
            assert(child_span(result, i, upper, level) == child_span(items, from, upper, level));
            assert(confined(
                left,
                items[from].child_block,
                child_span(items, from, upper, level),
                base,
                bound,
            ));
            lemma_confined_agrees(
                left,
                right,
                items[from].child_block,
                child_span(items, from, upper, level),
                base,
                bound,
                new_bound,
            );
        }
    }
}

/// Lookups below one half of a list of siblings that was cut at `split`.
pub proof fn lemma_cut_get(
    blocks: Map<u64, Seq<u8>>,
    items: Seq<BafsInternalItem>,
    split: int,
    upper: int,
    level: nat,
    target: BafsKey,
)
    requires
        sorted(separator_ranks(items)),
        0 < split < items.len(),
    ensures
        target.rank() < items[split].key.rank() ==> siblings_get(
            blocks,
            items.take(split),
            items[split].key.rank(),
            level,
            target,
        ) == siblings_get(blocks, items, upper, level, target),
        target.rank() >= items[split].key.rank() ==> siblings_get(
            blocks,
            items.skip(split),
            upper,
            level,
            target,
        ) == siblings_get(blocks, items, upper, level, target),
{
    let rank = target.rank();
    let ranks = separator_ranks(items);
    assert(separator_ranks(items.take(split)) =~= ranks.take(split));
    assert(separator_ranks(items.skip(split)) =~= ranks.skip(split));
    lemma_child_index(items, rank);
    let index = child_index(items, rank);
    assert(ranks[index] == items[index].key.rank());
    assert(ranks[split] == items[split].key.rank());
    if rank < items[split].key.rank() {
        if index >= split {
            assert(ranks[split] <= ranks[index]);
        }
        lemma_child_index_is(items.take(split), rank, index);
        assert(child_span(items.take(split), index, items[split].key.rank(), level) == child_span(
            items,
            index,
            upper,
            level,
        ));
    } else {
        if index < split {
            assert(ranks[index + 1] == items[index + 1].key.rank());
            assert(ranks[index + 1] <= ranks[split]);
        }
        lemma_child_index_is(items.skip(split), rank, index - split);
        assert(child_span(items.skip(split), index - split, upper, level) == child_span(
            items,
            index,
            upper,
            level,
        ));
    }
}

pub proof fn lemma_cut_confined(
    blocks: Map<u64, Seq<u8>>,
    items: Seq<BafsInternalItem>,
    split: int,
    upper: int,
    level: nat,
    base: int,
    bound: int,
)
    requires
        0 < split < items.len(),
        siblings_confined(blocks, items, upper, level, base, bound),
    ensures
        siblings_confined(
            blocks,
            items.take(split),
            items[split].key.rank(),
            level,
            base,
            bound,
        ),
        siblings_confined(blocks, items.skip(split), upper, level, base, bound),
{
    let first = items.take(split);
    let second = items.skip(split);
    assert forall|i: int| 0 <= i < first.len() implies confined(
        blocks,
        (#[trigger] first[i]).child_block,
        child_span(first, i, items[split].key.rank(), level),
        base,
        bound,
    ) by {
        assert(child_span(first, i, items[split].key.rank(), level) == child_span(
            items,
            i,
            upper,
            level,
        ));
        assert(confined(
            blocks,
            items[i].child_block,
            child_span(items, i, upper, level),
            base,
            bound,
        ));
    }
    assert forall|i: int| 0 <= i < second.len() implies confined(
        blocks,
        (#[trigger] second[i]).child_block,
        child_span(second, i, upper, level),
        base,
        bound,
    ) by {
        assert(child_span(second, i, upper, level) == child_span(items, i + split, upper, level));
        assert(confined(
            blocks,
            items[i + split].child_block,
            child_span(items, i + split, upper, level),
            base,
            bound,
        ));
    }
}

pub proof fn lemma_leaf_position(items: Seq<LeafEntry>, target: BafsKey, position: int)
    requires
        sorted(leaf_ranks(items)),
        0 <= position < items.len(),
        items[position].key == target,
    ensures
        lower_bound(leaf_ranks(items), target.rank()) == position,
        leaf_get(items, target) == Some(items[position].value),
{
    let ranks = leaf_ranks(items);
    assert(ranks[position] == target.rank());
    if position > 0 {
        assert(ranks[position - 1] < ranks[position]);
    }
    lemma_lower_bound_is(ranks, target.rank(), position);
}

pub proof fn lemma_leaf_absent(items: Seq<LeafEntry>, target: BafsKey)
    requires
        sorted(leaf_ranks(items)),
        forall|i: int| 0 <= i < items.len() ==> #[trigger] items[i].key != target,
    ensures
        leaf_get(items, target) is None,
{
    lemma_lower_bound(leaf_ranks(items), target.rank());
}

/// Putting a key changes the value of that key alone.
#[verifier::spinoff_prover]
#[verifier::rlimit(60)]
pub proof fn lemma_leaf_put(
    items: Seq<LeafEntry>,
    target: BafsKey,
    value: Seq<u8>,
    lower: int,
    upper: int,
)
    requires
        sorted(leaf_ranks(items)),
        within(leaf_ranks(items), lower, upper),
        target.rank() < upper,
    ensures
        sorted(leaf_ranks(leaf_put(items, target, value))),
        within(
            leaf_ranks(leaf_put(items, target, value)),
            if target.rank() < lower {
                target.rank()
            } else {
                lower
            },
            upper,
        ),
        leaf_put(items, target, value).len() > 0,
        leaf_put(items, target, value).len() <= items.len() + 1,
        forall|other: BafsKey| #[trigger]
            leaf_get(leaf_put(items, target, value), other) == if other == target {
                Some(value)
            } else {
                leaf_get(items, other)
            },
{
    let result = leaf_put(items, target, value);
    let ranks = leaf_ranks(items);
    let after = leaf_ranks(result);
    lemma_lower_bound(ranks, target.rank());
    let position = lower_bound(ranks, target.rank());
    let present = position < items.len() && items[position].key == target;
    if position < items.len() {
        assert(ranks[position] == items[position].key.rank());
        key::lemma_rank_injective(items[position].key, target);
    }
    if present {
        assert(after =~= ranks);
    } else {
        assert(after =~= ranks.insert(position, target.rank()));
    }
    assert forall|i: int, j: int| 0 <= i < j < after.len() implies after[i] < after[j] by {
        if !present {
            let from_i = if i < position { i } else { i - 1 };
            let from_j = if j < position { j } else { j - 1 };
            if i != position {
                assert(after[i] == ranks[from_i]);
            }
            if j != position {
                assert(after[j] == ranks[from_j]);
            }
        }
    }
    assert forall|i: int| 0 <= i < after.len() implies (if target.rank() < lower {
        target.rank()
    } else {
        lower
    }) <= #[trigger] after[i] < upper by {
        if !present {
            if i < position {
                assert(after[i] == ranks[i]);
            } else if i > position {
                assert(after[i] == ranks[i - 1]);
            }
        } else {
            assert(after[i] == ranks[i]);
        }
    }
    assert(result[position].key == target && result[position].value == value);
    lemma_leaf_position(result, target, position);
    assert forall|other: BafsKey| #[trigger]
        leaf_get(result, other) == if other == target {
            Some(value)
        } else {
            leaf_get(items, other)
        } by {
        if other != target {
            let place = lower_bound(ranks, other.rank());
            lemma_lower_bound(ranks, other.rank());
            if place < items.len() && items[place].key == other {
                let to = if present || place < position { place } else { place + 1 };
                assert(result[to] == items[place]);
                lemma_leaf_position(result, other, to);
            } else {
                assert forall|i: int| 0 <= i < result.len() implies #[trigger] result[i].key
                    != other by {
                    if result[i].key == other {
                        let from = if present || i < position { i } else { i - 1 };
                        assert(i != position);
                        assert(items[from].key == other);
                        lemma_leaf_position(items, other, from);
                    }
                }
                lemma_leaf_absent(result, other);
            }
        }
    }
}

/// Removing a key changes the value of that key alone.
#[verifier::spinoff_prover]
#[verifier::rlimit(60)]
pub proof fn lemma_leaf_remove(items: Seq<LeafEntry>, target: BafsKey, lower: int, upper: int)
    requires
        sorted(leaf_ranks(items)),
        within(leaf_ranks(items), lower, upper),
        leaf_get(items, target) is Some,
    ensures
        sorted(leaf_ranks(leaf_remove(items, target))),
        within(leaf_ranks(leaf_remove(items, target)), lower, upper),
        leaf_remove(items, target).len() == items.len() - 1,
        forall|other: BafsKey| #[trigger]
            leaf_get(leaf_remove(items, target), other) == if other == target {
                None
            } else {
                leaf_get(items, other)
            },
{
    let result = leaf_remove(items, target);
    let ranks = leaf_ranks(items);
    let after = leaf_ranks(result);
    lemma_lower_bound(ranks, target.rank());
    let position = lower_bound(ranks, target.rank());
    assert(after =~= ranks.remove(position));
    assert forall|i: int, j: int| 0 <= i < j < after.len() implies after[i] < after[j] by {
        let from_i = if i < position { i } else { i + 1 };
        let from_j = if j < position { j } else { j + 1 };
        assert(after[i] == ranks[from_i] && after[j] == ranks[from_j]);
    }
    assert forall|i: int| 0 <= i < after.len() implies lower <= #[trigger] after[i] < upper by {
        let from = if i < position { i } else { i + 1 };
        assert(after[i] == ranks[from]);
    }
    assert forall|other: BafsKey| #[trigger]
        leaf_get(result, other) == if other == target {
            None
        } else {
            leaf_get(items, other)
        } by {
        let place = lower_bound(ranks, other.rank());
        lemma_lower_bound(ranks, other.rank());
        if other != target && place < items.len() && items[place].key == other {
            let to = if place < position { place } else { place - 1 };
            assert(result[to] == items[place]);
            lemma_leaf_position(result, other, to);
        } else {
            assert forall|i: int| 0 <= i < result.len() implies #[trigger] result[i].key
                != other by {
                if result[i].key == other {
                    let from = if i < position { i } else { i + 1 };
                    assert(items[from].key == other);
                    lemma_leaf_position(items, other, from);
                }
            }
            lemma_leaf_absent(result, other);
        }
    }
}

/// A lookup in one half of a leaf that was cut at `split`.
pub proof fn lemma_leaf_cut(items: Seq<LeafEntry>, split: int, lower: int, upper: int)
    requires
        sorted(leaf_ranks(items)),
        within(leaf_ranks(items), lower, upper),
        0 < split < items.len(),
    ensures
        sorted(leaf_ranks(items.take(split))),
        sorted(leaf_ranks(items.skip(split))),
        within(leaf_ranks(items.take(split)), lower, items[split].key.rank()),
        within(leaf_ranks(items.skip(split)), items[split].key.rank(), upper),
        lower < items[split].key.rank() < upper,
        forall|target: BafsKey|
            #![trigger leaf_get(items, target)]
            leaf_get(items, target) == if target.rank() < items[split].key.rank() {
                leaf_get(items.take(split), target)
            } else {
                leaf_get(items.skip(split), target)
            },
{
    let ranks = leaf_ranks(items);
    let first = items.take(split);
    let second = items.skip(split);
    assert(leaf_ranks(first) =~= ranks.take(split));
    assert(leaf_ranks(second) =~= ranks.skip(split));
    assert(ranks[split] == items[split].key.rank());
    assert(ranks[0] < ranks[split]);
    assert forall|target: BafsKey|
        #![trigger leaf_get(items, target)]
        leaf_get(items, target) == if target.rank() < items[split].key.rank() {
            leaf_get(first, target)
        } else {
            leaf_get(second, target)
        } by {
        lemma_lower_bound(ranks, target.rank());
        let position = lower_bound(ranks, target.rank());
        if target.rank() < items[split].key.rank() {
            if position > split {
                assert(ranks[split] < target.rank());
            }
            lemma_lower_bound_is(leaf_ranks(first), target.rank(), position);
            if position == split {
                assert(ranks[split] > target.rank());
            }
        } else {
            if position < split {
                assert(ranks[position] < ranks[split]);
            }
            lemma_lower_bound_is(leaf_ranks(second), target.rank(), position - split);
        }
    }
}

/// A node that was written to a block can be read back, if it may stand there.
pub proof fn lemma_written_node(
    blocks: Map<u64, Seq<u8>>,
    address: u64,
    written: NodeModel,
    span: Span,
)
    requires
        blocks.contains_key(address),
        blocks[address] == node::node_block_bytes(written),
        node::node_fits(written),
        written.level > 0 ==> written.item_count == written.internal_items.len()
            && written.leaf_items.len() == 0,
        written.level == 0 ==> written.item_count == written.leaf_items.len()
            && written.internal_items.len() == 0,
        node_ok(written, span),
    ensures
        checked_node(blocks, address, span) == Ok::<NodeModel, BafsError>(
            (NodeModel {
                node_checksum: checksum::crc32c(node::node_body_bytes(written)),
                ..written
            }),
        ),
{
    node::law_node_round_trip(written, address);
}

/// A change of one key's value: `change` is its value afterwards.
pub open spec fn changed(
    before: Result<Option<Seq<u8>>, BafsError>,
    target: BafsKey,
    changed_key: BafsKey,
    change: Option<Seq<u8>>,
) -> Result<Option<Seq<u8>>, BafsError> {
    if target == changed_key {
        Ok(change)
    } else {
        before
    }
}

/// A subtree was replaced by `parts`, which differ from it in one key's value.
pub open spec fn subtree_changed(
    before: Map<u64, Seq<u8>>,
    address: u64,
    span: Span,
    after: Map<u64, Seq<u8>>,
    parts: Seq<BafsInternalItem>,
    changed_key: BafsKey,
    change: Option<Seq<u8>>,
    base: int,
    bound: int,
    new_bound: int,
) -> bool {
    confined(before, address, span, base, bound) ==> {
        &&& siblings_confined(after, parts, span.upper, span.levels, base, new_bound)
        &&& forall|target: BafsKey|
            target.rank() < span.upper ==> #[trigger] siblings_get(
                after,
                parts,
                span.upper,
                span.levels,
                target,
            ) == changed(
                subtree_get(before, address, span, target),
                target,
                changed_key,
                change,
            )
    }
}

/// A single part that holds `items`.
pub proof fn lemma_single_part(
    blocks: Map<u64, Seq<u8>>,
    parts: Seq<BafsInternalItem>,
    part: BafsInternalItem,
    upper: int,
    levels: nat,
    items: Seq<BafsInternalItem>,
    level: u8,
)
    requires
        parts == seq![part],
        ({
            let found = checked_node(
                blocks,
                part.child_block,
                (Span { lower: part.key.rank(), upper, levels }),
            );
            &&& found is Ok
            &&& found->Ok_0.level == level
            &&& found->Ok_0.internal_items == items
        }),
        level > 0,
    ensures
        forall|target: BafsKey| #[trigger]
            siblings_get(blocks, parts, upper, levels, target) == siblings_get(
                blocks,
                items,
                upper,
                level as nat,
                target,
            ),
        forall|base: int, bound: int|
            base <= part.child_block < bound && siblings_confined(
                blocks,
                items,
                upper,
                level as nat,
                base,
                bound,
            ) ==> #[trigger] siblings_confined(blocks, parts, upper, levels, base, bound),
{
    let span = Span { lower: part.key.rank(), upper, levels };
    assert(child_span(parts, 0, upper, levels) == span);
    assert forall|target: BafsKey| #[trigger]
        siblings_get(blocks, parts, upper, levels, target) == siblings_get(
            blocks,
            items,
            upper,
            level as nat,
            target,
        ) by {
        lemma_child_index_is(parts, target.rank(), 0);
        lemma_internal_node(blocks, part.child_block, span, 0, 0);
        assert(subtree_get(blocks, part.child_block, span, target) == siblings_get(
            blocks,
            items,
            upper,
            level as nat,
            target,
        ));
    }
    assert forall|base: int, bound: int|
        base <= part.child_block < bound && siblings_confined(
            blocks,
            items,
            upper,
            level as nat,
            base,
            bound,
        ) implies #[trigger] siblings_confined(blocks, parts, upper, levels, base, bound) by {
        lemma_internal_node(blocks, part.child_block, span, base, bound);
    }
}

/// Two parts that hold the two halves of `items`, cut at `split`.
#[verifier::spinoff_prover]
#[verifier::rlimit(60)]
pub proof fn lemma_double_part(
    blocks: Map<u64, Seq<u8>>,
    parts: Seq<BafsInternalItem>,
    left: BafsInternalItem,
    right: BafsInternalItem,
    upper: int,
    levels: nat,
    items: Seq<BafsInternalItem>,
    split: int,
    level: u8,
)
    requires
        parts == seq![left, right],
        level > 0,
        0 < split < items.len(),
        sorted(separator_ranks(items)),
        right.key == items[split].key,
        left.key.rank() < right.key.rank(),
        ({
            let found = checked_node(
                blocks,
                left.child_block,
                (Span { lower: left.key.rank(), upper: right.key.rank(), levels }),
            );
            &&& found is Ok
            &&& found->Ok_0.level == level
            &&& found->Ok_0.internal_items == items.take(split)
        }),
        ({
            let found = checked_node(
                blocks,
                right.child_block,
                (Span { lower: right.key.rank(), upper, levels }),
            );
            &&& found is Ok
            &&& found->Ok_0.level == level
            &&& found->Ok_0.internal_items == items.skip(split)
        }),
    ensures
        forall|target: BafsKey| #[trigger]
            siblings_get(blocks, parts, upper, levels, target) == siblings_get(
                blocks,
                items,
                upper,
                level as nat,
                target,
            ),
        forall|base: int, bound: int|
            base <= left.child_block < bound && base <= right.child_block < bound
                && siblings_confined(blocks, items, upper, level as nat, base, bound)
                ==> #[trigger] siblings_confined(
                blocks,
                parts,
                upper,
                levels,
                base,
                bound,
            ),
{
    let left_span = Span { lower: left.key.rank(), upper: right.key.rank(), levels };
    let right_span = Span { lower: right.key.rank(), upper, levels };
    assert(child_span(parts, 0, upper, levels) == left_span);
    assert(child_span(parts, 1, upper, levels) == right_span);
    let ranks = separator_ranks(parts);
    assert(ranks =~= seq![left.key.rank(), right.key.rank()]);
    assert forall|target: BafsKey| #[trigger]
        siblings_get(blocks, parts, upper, levels, target) == siblings_get(
            blocks,
            items,
            upper,
            level as nat,
            target,
        ) by {
        lemma_cut_get(blocks, items, split, upper, level as nat, target);
        if target.rank() < right.key.rank() {
            lemma_child_index_is(parts, target.rank(), 0);
            lemma_internal_node(blocks, left.child_block, left_span, 0, 0);
            assert(subtree_get(blocks, left.child_block, left_span, target) == siblings_get(
                blocks,
                items.take(split),
                right.key.rank(),
                level as nat,
                target,
            ));
        } else {
            lemma_child_index_is(parts, target.rank(), 1);
            lemma_internal_node(blocks, right.child_block, right_span, 0, 0);
            assert(subtree_get(blocks, right.child_block, right_span, target) == siblings_get(
                blocks,
                items.skip(split),
                upper,
                level as nat,
                target,
            ));
        }
    }
    assert forall|base: int, bound: int|
        base <= left.child_block < bound && base <= right.child_block < bound
            && siblings_confined(
            blocks,
            items,
            upper,
            level as nat,
            base,
            bound,
        ) implies #[trigger] siblings_confined(blocks, parts, upper, levels, base, bound) by {
        lemma_cut_confined(blocks, items, split, upper, level as nat, base, bound);
        lemma_internal_node(blocks, left.child_block, left_span, base, bound);
        lemma_internal_node(blocks, right.child_block, right_span, base, bound);
    }
}

/// A single part that is a leaf.
pub proof fn lemma_single_leaf(
    blocks: Map<u64, Seq<u8>>,
    parts: Seq<BafsInternalItem>,
    part: BafsInternalItem,
    upper: int,
    levels: nat,
    items: Seq<LeafEntry>,
)
    requires
        parts == seq![part],
        ({
            let found = checked_node(
                blocks,
                part.child_block,
                (Span { lower: part.key.rank(), upper, levels }),
            );
            &&& found is Ok
            &&& found->Ok_0.level == 0
            &&& found->Ok_0.leaf_items == items
        }),
    ensures
        forall|target: BafsKey| #[trigger]
            siblings_get(blocks, parts, upper, levels, target) == Ok::<
                Option<Seq<u8>>,
                BafsError,
            >(leaf_get(items, target)),
        forall|base: int, bound: int|
            base <= part.child_block < bound ==> #[trigger] siblings_confined(
                blocks,
                parts,
                upper,
                levels,
                base,
                bound,
            ),
{
    assert(child_span(parts, 0, upper, levels) == (Span { lower: part.key.rank(), upper, levels }));
    assert forall|target: BafsKey| #[trigger]
        siblings_get(blocks, parts, upper, levels, target) == Ok::<Option<Seq<u8>>, BafsError>(
            leaf_get(items, target),
        ) by {
        lemma_child_index_is(parts, target.rank(), 0);
    }
}

/// Two parts that are leaves with the two halves of `items`, cut at `split`.
pub proof fn lemma_double_leaf(
    blocks: Map<u64, Seq<u8>>,
    parts: Seq<BafsInternalItem>,
    left: BafsInternalItem,
    right: BafsInternalItem,
    lower: int,
    upper: int,
    levels: nat,
    items: Seq<LeafEntry>,
    split: int,
)
    requires
        parts == seq![left, right],
        0 < split < items.len(),
        sorted(leaf_ranks(items)),
        within(leaf_ranks(items), lower, upper),
        right.key == items[split].key,
        left.key.rank() < right.key.rank(),
        ({
            let found = checked_node(
                blocks,
                left.child_block,
                (Span { lower: left.key.rank(), upper: right.key.rank(), levels }),
            );
            &&& found is Ok
            &&& found->Ok_0.level == 0
            &&& found->Ok_0.leaf_items == items.take(split)
        }),
        ({
            let found = checked_node(
                blocks,
                right.child_block,
                (Span { lower: right.key.rank(), upper, levels }),
            );
            &&& found is Ok
            &&& found->Ok_0.level == 0
            &&& found->Ok_0.leaf_items == items.skip(split)
        }),
    ensures
        forall|target: BafsKey| #[trigger]
            siblings_get(blocks, parts, upper, levels, target) == Ok::<
                Option<Seq<u8>>,
                BafsError,
            >(leaf_get(items, target)),
        forall|base: int, bound: int|
            base <= left.child_block < bound && base <= right.child_block < bound
                ==> #[trigger] siblings_confined(
                blocks,
                parts,
                upper,
                levels,
                base,
                bound,
            ),
{
    assert(child_span(parts, 0, upper, levels) == (Span {
        lower: left.key.rank(),
        upper: right.key.rank(),
        levels,
    }));
    assert(child_span(parts, 1, upper, levels) == (Span { lower: right.key.rank(), upper, levels }));
    let ranks = separator_ranks(parts);
    assert(ranks =~= seq![left.key.rank(), right.key.rank()]);
    lemma_leaf_cut(items, split, lower, upper);
    assert forall|target: BafsKey| #[trigger]
        siblings_get(blocks, parts, upper, levels, target) == Ok::<Option<Seq<u8>>, BafsError>(
            leaf_get(items, target),
        ) by {
        if target.rank() < right.key.rank() {
            lemma_child_index_is(parts, target.rank(), 0);
        } else {
            lemma_child_index_is(parts, target.rank(), 1);
        }
    }
}

/// The step from a change in a child to the same change in its parent, where
/// the parent's items became `splice(items, index, parts)`, which now stand
/// below `new_parts`.
#[verifier::spinoff_prover]
#[verifier::rlimit(60)]
pub proof fn lemma_change_in_parent(
    before: Map<u64, Seq<u8>>,
    middle: Map<u64, Seq<u8>>,
    after: Map<u64, Seq<u8>>,
    address: u64,
    span: Span,
    index: int,
    parts: Seq<BafsInternalItem>,
    new_parts: Seq<BafsInternalItem>,
    changed_key: BafsKey,
    change: Option<Seq<u8>>,
    base: int,
    bound: int,
    middle_bound: int,
    new_bound: int,
)
    requires
        confined(before, address, span, base, bound),
        checked_node(before, address, span) is Ok,
        checked_node(before, address, span)->Ok_0.level > 0,
        agree(before, middle, base, bound),
        agree(middle, after, base, middle_bound),
        bound <= middle_bound <= new_bound,
        ({
            let node = checked_node(before, address, span)->Ok_0;
            let items = node.internal_items;
            &&& index == child_index(items, changed_key.rank())
            &&& parts_fit(items, index, span.upper, parts)
            &&& changed_key.rank() < span.upper
            &&& subtree_changed(
                before,
                items[index].child_block,
                child_span(items, index, span.upper, node.level as nat),
                middle,
                parts,
                changed_key,
                change,
                base,
                bound,
                middle_bound,
            )
            &&& forall|target: BafsKey| #[trigger]
                siblings_get(after, new_parts, span.upper, span.levels, target) == siblings_get(
                    after,
                    splice(items, index, parts),
                    span.upper,
                    node.level as nat,
                    target,
                )
            &&& siblings_confined(
                after,
                splice(items, index, parts),
                span.upper,
                node.level as nat,
                base,
                new_bound,
            ) ==> siblings_confined(
                after,
                new_parts,
                span.upper,
                span.levels,
                base,
                new_bound,
            )
        }),
    ensures
        subtree_changed(
            before,
            address,
            span,
            after,
            new_parts,
            changed_key,
            change,
            base,
            bound,
            new_bound,
        ),
{
    let node = checked_node(before, address, span)->Ok_0;
    let items = node.internal_items;
    let level = node.level as nat;
    let result = splice(items, index, parts);
    lemma_internal_node(before, address, span, base, bound);
    lemma_splice_sorted(items, index, span.upper, span.lower, parts);
    assert(confined(
        before,
        items[index].child_block,
        child_span(items, index, span.upper, level),
        base,
        bound,
    ));
    lemma_splice_confined(
        before,
        middle,
        items,
        index,
        span.upper,
        level,
        parts,
        base,
        bound,
        middle_bound,
    );
    lemma_siblings_agree(
        middle,
        after,
        result,
        span.upper,
        level,
        base,
        middle_bound,
        new_bound,
    );
    lemma_child_index(items, changed_key.rank());
    assert forall|target: BafsKey| target.rank() < span.upper implies #[trigger] siblings_get(
        after,
        new_parts,
        span.upper,
        span.levels,
        target,
    ) == changed(subtree_get(before, address, span, target), target, changed_key, change) by {
        assert(siblings_get(after, result, span.upper, level, target) == siblings_get(
            middle,
            result,
            span.upper,
            level,
            target,
        ));
        lemma_splice_get(
            before,
            middle,
            items,
            index,
            span.lower,
            span.upper,
            level,
            parts,
            base,
            bound,
            target,
        );
        lemma_child_index(items, target.rank());
        assert(subtree_get(before, address, span, target) == siblings_get(
            before,
            items,
            span.upper,
            level,
            target,
        ));
    }
}

/// The items of a leaf whose keys have a rank from `min` to `max`.
pub open spec fn entries_between(items: Seq<LeafEntry>, min: int, max: int) -> Seq<LeafEntry>
    decreases items.len(),
{
    if items.len() == 0 {
        Seq::empty()
    } else {
        let rest = entries_between(items.drop_last(), min, max);
        if min <= items.last().key.rank() <= max {
            rest.push(items.last())
        } else {
            rest
        }
    }
}

/// Whether the child at `index` can hold no key with a rank from `min` to `max`.
pub open spec fn child_outside(
    items: Seq<BafsInternalItem>,
    index: int,
    min: int,
    max: int,
) -> bool {
    ||| index + 1 < items.len() && items[index + 1].key.rank() < min
    ||| items[index].key.rank() > max
}

/// The items of a subtree whose keys have a rank from `min` to `max`.
pub open spec fn range_of(
    blocks: Map<u64, Seq<u8>>,
    address: u64,
    span: Span,
    min: int,
    max: int,
) -> Result<Seq<LeafEntry>, BafsError>
    decreases span.levels, 0nat,
{
    match checked_node(blocks, address, span) {
        Err(error) => Err(error),
        Ok(node) => if node.level == 0 {
            Ok(entries_between(node.leaf_items, min, max))
        } else {
            range_of_children(
                blocks,
                node.internal_items,
                node.internal_items.len(),
                span.upper,
                node.level as nat,
                min,
                max,
            )
        },
    }
}

/// The same for the first `count` of a list of siblings.
pub open spec fn range_of_children(
    blocks: Map<u64, Seq<u8>>,
    items: Seq<BafsInternalItem>,
    count: nat,
    upper: int,
    level: nat,
    min: int,
    max: int,
) -> Result<Seq<LeafEntry>, BafsError>
    decreases level, count,
{
    if count == 0 {
        Ok(Seq::empty())
    } else {
        let index = count - 1;
        match range_of_children(blocks, items, index as nat, upper, level, min, max) {
            Err(error) => Err(error),
            Ok(found) => if child_outside(items, index, min, max) {
                Ok(found)
            } else {
                match range_of(
                    blocks,
                    items[index].child_block,
                    child_span(items, index, upper, level),
                    min,
                    max,
                ) {
                    Err(error) => Err(error),
                    Ok(more) => Ok(found + more),
                }
            },
        }
    }
}

/// Every node that a scan from `min` to `max` meets stands in one of the blocks
/// `cached`.
#[verifier::opaque]
pub open spec fn range_cached(
    blocks: Map<u64, Seq<u8>>,
    cached: Set<u64>,
    address: u64,
    span: Span,
    min: int,
    max: int,
) -> bool
    decreases span.levels,
{
    &&& cached.contains(address)
    &&& match checked_node(blocks, address, span) {
        Err(_) => true,
        Ok(node) => node.level > 0 ==> forall|i: int|
            0 <= i < node.internal_items.len() && !child_outside(node.internal_items, i, min, max)
                ==> range_cached(
                blocks,
                cached,
                (#[trigger] node.internal_items[i]).child_block,
                child_span(node.internal_items, i, span.upper, node.level as nat),
                min,
                max,
            ),
    }
}

/// The items of the tree with keys from `min_key` to `max_key`.
pub open spec fn tree_range(
    blocks: Map<u64, Seq<u8>>,
    root: u64,
    min_key: BafsKey,
    max_key: BafsKey,
) -> Result<Seq<LeafEntry>, BafsError> {
    range_of(blocks, root, root_span(), min_key.rank(), max_key.rank())
}

/// The first error that a scan meets is the one that it reports.
pub proof fn lemma_range_error(
    blocks: Map<u64, Seq<u8>>,
    items: Seq<BafsInternalItem>,
    count: nat,
    total: nat,
    upper: int,
    level: nat,
    min: int,
    max: int,
)
    requires
        range_of_children(blocks, items, count, upper, level, min, max) is Err,
        count <= total,
    ensures
        range_of_children(blocks, items, total, upper, level, min, max) == range_of_children(
            blocks,
            items,
            count,
            upper,
            level,
            min,
            max,
        ),
    decreases total,
{
    if count < total {
        lemma_range_error(blocks, items, count, (total - 1) as nat, upper, level, min, max);
    }
}

proof fn lemma_entries_between(items: Seq<LeafEntry>, min: int, max: int, lower: int, upper: int)
    requires
        sorted(leaf_ranks(items)),
        within(leaf_ranks(items), lower, upper),
    ensures
        sorted(leaf_ranks(entries_between(items, min, max))),
        within(leaf_ranks(entries_between(items, min, max)), lower, upper),
        within(leaf_ranks(entries_between(items, min, max)), min, max + 1),
        forall|target: BafsKey|
            min <= target.rank() <= max ==> #[trigger] leaf_get(
                entries_between(items, min, max),
                target,
            ) == leaf_get(items, target),
    decreases items.len(),
{
    if items.len() > 0 {
        let ranks = leaf_ranks(items);
        let shorter = items.drop_last();
        assert(leaf_ranks(shorter) =~= ranks.drop_last());
        let last = items.last().key.rank();
        assert(ranks[items.len() - 1] == last);
        assert(within(leaf_ranks(shorter), lower, last));
        lemma_entries_between(shorter, min, max, lower, last);
        let rest = entries_between(shorter, min, max);
        let tail = seq![items.last()];
        assert(leaf_ranks(tail) =~= seq![last]);
        assert(items =~= shorter + tail);
        lemma_leaf_append(shorter, tail, lower, last, upper);
        lemma_leaf_append(rest, tail, lower, last, upper);
        let result = entries_between(items, min, max);
        if min <= last <= max {
            assert(result =~= rest + tail);
            assert(leaf_ranks(result) =~= leaf_ranks(rest).push(last));
            assert forall|target: BafsKey|
                min <= target.rank() <= max implies #[trigger] leaf_get(result, target)
                == leaf_get(items, target) by {
                assert(leaf_get(rest + tail, target) == if target.rank() < last {
                    leaf_get(rest, target)
                } else {
                    leaf_get(tail, target)
                });
                assert(leaf_get(shorter + tail, target) == if target.rank() < last {
                    leaf_get(shorter, target)
                } else {
                    leaf_get(tail, target)
                });
            }
        } else {
            assert(within(leaf_ranks(rest), lower, upper)) by {
                assert(forall|i: int|
                    0 <= i < leaf_ranks(rest).len() ==> lower <= #[trigger] leaf_ranks(rest)[i]
                        < last);
            }
            assert forall|target: BafsKey|
                min <= target.rank() <= max implies #[trigger] leaf_get(result, target)
                == leaf_get(items, target) by {
                assert(leaf_get(shorter + tail, target) == if target.rank() < last {
                    leaf_get(shorter, target)
                } else {
                    leaf_get(tail, target)
                });
                if target.rank() >= last {
                    assert(target.rank() > last);
                    lemma_leaf_outside(tail, target, last, last + 1);
                    lemma_leaf_outside(rest, target, lower, last);
                }
            }
        }
    }
}

/// A key outside the bounds of a leaf's keys has no value there.
proof fn lemma_leaf_outside(items: Seq<LeafEntry>, target: BafsKey, lower: int, upper: int)
    requires
        sorted(leaf_ranks(items)),
        within(leaf_ranks(items), lower, upper),
        !(lower <= target.rank() < upper),
    ensures
        leaf_get(items, target) is None,
{
    assert forall|i: int| 0 <= i < items.len() implies #[trigger] items[i].key != target by {
        assert(leaf_ranks(items)[i] == items[i].key.rank());
    }
    lemma_leaf_absent(items, target);
}

/// Lookups in two lists of items, one after the other.
proof fn lemma_leaf_append(
    first: Seq<LeafEntry>,
    second: Seq<LeafEntry>,
    lower: int,
    middle: int,
    upper: int,
)
    requires
        sorted(leaf_ranks(first)),
        sorted(leaf_ranks(second)),
        within(leaf_ranks(first), lower, middle),
        within(leaf_ranks(second), middle, upper),
        lower <= middle <= upper,
    ensures
        sorted(leaf_ranks(first + second)),
        within(leaf_ranks(first + second), lower, upper),
        forall|target: BafsKey| #[trigger]
            leaf_get(first + second, target) == if target.rank() < middle {
                leaf_get(first, target)
            } else {
                leaf_get(second, target)
            },
{
    let both = first + second;
    let ranks = leaf_ranks(both);
    let first_ranks = leaf_ranks(first);
    let second_ranks = leaf_ranks(second);
    assert(ranks =~= first_ranks + second_ranks);
    assert forall|i: int, j: int| 0 <= i < j < ranks.len() implies ranks[i] < ranks[j] by {
        if i < first_ranks.len() && j >= first_ranks.len() {
            assert(first_ranks[i] < middle <= second_ranks[j - first_ranks.len()]);
        }
    }
    assert forall|i: int| 0 <= i < ranks.len() implies lower <= #[trigger] ranks[i] < upper by {
        if i < first_ranks.len() {
            assert(ranks[i] == first_ranks[i]);
        } else {
            assert(ranks[i] == second_ranks[i - first_ranks.len()]);
        }
    }
    assert forall|target: BafsKey| #[trigger]
        leaf_get(both, target) == if target.rank() < middle {
            leaf_get(first, target)
        } else {
            leaf_get(second, target)
        } by {
        let rank = target.rank();
        lemma_lower_bound(first_ranks, rank);
        lemma_lower_bound(second_ranks, rank);
        if rank < middle {
            let position = lower_bound(first_ranks, rank);
            if position == first.len() && second.len() > 0 {
                assert(ranks[position] == second_ranks[0]);
                assert(both[position].key.rank() == ranks[position]);
            }
            lemma_lower_bound_is(ranks, rank, position);
        } else {
            let position = lower_bound(second_ranks, rank);
            if position == 0 && first.len() > 0 {
                assert(ranks[first.len() - 1] == first_ranks[first.len() - 1]);
            }
            lemma_lower_bound_is(ranks, rank, first.len() + position);
        }
    }
}

/// A leaf holds only keys that belong there.
pub proof fn lemma_leaf_for_within(
    blocks: Map<u64, Seq<u8>>,
    address: u64,
    span: Span,
    rank: int,
)
    requires
        leaf_for(blocks, address, span, rank) is Ok,
    ensures
        sorted(leaf_ranks(leaf_for(blocks, address, span, rank)->Ok_0)),
        within(leaf_ranks(leaf_for(blocks, address, span, rank)->Ok_0), span.lower, span.upper),
        node::leaf_size(leaf_for(blocks, address, span, rank)->Ok_0) <= 4096,
    decreases span.levels,
{
    let node = checked_node(blocks, address, span)->Ok_0;
    if node.level > 0 {
        let items = node.internal_items;
        let index = child_index(items, rank);
        let inner = child_span(items, index, span.upper, node.level as nat);
        lemma_child_index(items, rank);
        lemma_leaf_for_within(blocks, items[index].child_block, inner, rank);
        let ranks = separator_ranks(items);
        assert(ranks[index] == items[index].key.rank());
        if index + 1 < items.len() {
            assert(ranks[index + 1] == items[index + 1].key.rank());
        }
    }
}

/// Every item of the leaf that is responsible for some key is an item of the
/// subtree.
pub proof fn lemma_leaf_items_are_found(
    blocks: Map<u64, Seq<u8>>,
    address: u64,
    span: Span,
    rank: int,
    position: int,
)
    requires
        leaf_for(blocks, address, span, rank) is Ok,
        0 <= position < leaf_for(blocks, address, span, rank)->Ok_0.len(),
    ensures
        ({
            let item = leaf_for(blocks, address, span, rank)->Ok_0[position];
            subtree_get(blocks, address, span, item.key) == Ok::<Option<Seq<u8>>, BafsError>(
                Some(item.value),
            )
        }),
    decreases span.levels,
{
    let node = checked_node(blocks, address, span)->Ok_0;
    let found = leaf_for(blocks, address, span, rank)->Ok_0;
    let item = found[position];
    if node.level == 0 {
        lemma_leaf_position(found, item.key, position);
    } else {
        let items = node.internal_items;
        let index = child_index(items, rank);
        let inner = child_span(items, index, span.upper, node.level as nat);
        lemma_child_index(items, rank);
        lemma_leaf_items_are_found(blocks, items[index].child_block, inner, rank, position);
        lemma_leaf_for_within(blocks, items[index].child_block, inner, rank);
        assert(leaf_ranks(found)[position] == item.key.rank());
        lemma_child_index_is(items, item.key.rank(), index);
    }
}

proof fn lemma_range_of(blocks: Map<u64, Seq<u8>>, address: u64, span: Span, min: int, max: int)
    requires
        range_of(blocks, address, span, min, max) is Ok,
        max < key::rank_limit(),
        span.lower <= span.upper,
    ensures
        ({
            let found = range_of(blocks, address, span, min, max)->Ok_0;
            &&& sorted(leaf_ranks(found))
            &&& within(leaf_ranks(found), span.lower, span.upper)
            &&& within(leaf_ranks(found), min, max + 1)
            &&& forall|target: BafsKey|
                min <= target.rank() <= max && subtree_get(blocks, address, span, target) is Ok
                    ==> #[trigger] subtree_get(blocks, address, span, target) == Ok::<
                    Option<Seq<u8>>,
                    BafsError,
                >(leaf_get(found, target))
        }),
    decreases span.levels, 0nat,
{
    let node = checked_node(blocks, address, span)->Ok_0;
    let found = range_of(blocks, address, span, min, max)->Ok_0;
    if node.level == 0 {
        lemma_entries_between(node.leaf_items, min, max, span.lower, span.upper);
    } else {
        let items = node.internal_items;
        let level = node.level as nat;
        lemma_range_of_children(
            blocks,
            items,
            items.len(),
            span.lower,
            span.upper,
            level,
            min,
            max,
        );
        assert forall|target: BafsKey|
            min <= target.rank() <= max && subtree_get(blocks, address, span, target) is Ok
            implies #[trigger] subtree_get(blocks, address, span, target) == Ok::<
            Option<Seq<u8>>,
            BafsError,
        >(leaf_get(found, target)) by {
            lemma_child_index(items, target.rank());
            assert(subtree_get(blocks, address, span, target) == siblings_get(
                blocks,
                items,
                span.upper,
                level,
                target,
            ));
        }
    }
}

#[verifier::spinoff_prover]
#[verifier::rlimit(60)]
proof fn lemma_range_of_children(
    blocks: Map<u64, Seq<u8>>,
    items: Seq<BafsInternalItem>,
    count: nat,
    lower: int,
    upper: int,
    level: nat,
    min: int,
    max: int,
)
    requires
        range_of_children(blocks, items, count, upper, level, min, max) is Ok,
        0 <= count <= items.len(),
        items.len() > 0,
        sorted(separator_ranks(items)),
        within(separator_ranks(items), lower, upper),
        max < key::rank_limit(),
    ensures
        ({
            let found = range_of_children(blocks, items, count, upper, level, min, max)->Ok_0;
            let end = if count < items.len() {
                items[count as int].key.rank()
            } else {
                upper
            };
            &&& sorted(leaf_ranks(found))
            &&& within(leaf_ranks(found), lower, end)
            &&& within(leaf_ranks(found), min, max + 1)
            &&& forall|target: BafsKey|
                min <= target.rank() <= max && child_index(items, target.rank()) < count
                    && siblings_get(blocks, items, upper, level, target) is Ok
                    ==> #[trigger] siblings_get(blocks, items, upper, level, target) == Ok::<
                    Option<Seq<u8>>,
                    BafsError,
                >(leaf_get(found, target))
        }),
    decreases level, count,
{
    let ranks = separator_ranks(items);
    if count == 0 {
        assert forall|target: BafsKey| child_index(items, target.rank()) >= 0 by {
            lemma_child_index(items, target.rank());
        }
    } else {
        let index = count - 1;
        let start = items[index].key.rank();
        let end = if count < items.len() {
            items[count as int].key.rank()
        } else {
            upper
        };
        assert(ranks[index] == start);
        if count < items.len() {
            assert(ranks[count as int] == end);
        }
        lemma_range_of_children(blocks, items, index as nat, lower, upper, level, min, max);
        let before = range_of_children(blocks, items, index as nat, upper, level, min, max)->Ok_0;
        let found = range_of_children(blocks, items, count, upper, level, min, max)->Ok_0;
        let inner = child_span(items, index, upper, level);
        if child_outside(items, index, min, max) {
            assert(within(leaf_ranks(before), lower, end)) by {
                assert(forall|i: int|
                    0 <= i < leaf_ranks(before).len() ==> lower <= #[trigger] leaf_ranks(before)[i]
                        < start);
            }
            assert forall|target: BafsKey|
                min <= target.rank() <= max && child_index(items, target.rank()) < count
                    && siblings_get(
                    blocks,
                    items,
                    upper,
                    level,
                    target,
                ) is Ok implies #[trigger] siblings_get(blocks, items, upper, level, target)
                == Ok::<Option<Seq<u8>>, BafsError>(leaf_get(found, target)) by {
                lemma_child_index(items, target.rank());
                if child_index(items, target.rank()) == index {
                    assert(target.rank() < start);
                    assert(index == 0);
                    lemma_leaf_for_within(
                        blocks,
                        items[index].child_block,
                        inner,
                        target.rank(),
                    );
                    lemma_leaf_outside(
                        leaf_for(blocks, items[index].child_block, inner, target.rank())->Ok_0,
                        target,
                        inner.lower,
                        inner.upper,
                    );
                    assert(before =~= Seq::empty());
                    lemma_leaf_absent(before, target);
                }
            }
        } else {
            let more = range_of(blocks, items[index].child_block, inner, min, max)->Ok_0;
            lemma_range_of(blocks, items[index].child_block, inner, min, max);
            lemma_leaf_append(before, more, lower, start, end);
            assert(leaf_ranks(found) =~= leaf_ranks(before) + leaf_ranks(more));
            assert(within(leaf_ranks(found), min, max + 1)) by {
                assert forall|i: int| 0 <= i < leaf_ranks(found).len() implies min
                    <= #[trigger] leaf_ranks(found)[i] < max + 1 by {
                    if i < before.len() {
                        assert(leaf_ranks(found)[i] == leaf_ranks(before)[i]);
                    } else {
                        assert(leaf_ranks(found)[i] == leaf_ranks(more)[i - before.len()]);
                    }
                }
            }
            assert forall|target: BafsKey|
                min <= target.rank() <= max && child_index(items, target.rank()) < count
                    && siblings_get(
                    blocks,
                    items,
                    upper,
                    level,
                    target,
                ) is Ok implies #[trigger] siblings_get(blocks, items, upper, level, target)
                == Ok::<Option<Seq<u8>>, BafsError>(leaf_get(found, target)) by {
                lemma_child_index(items, target.rank());
                let at = child_index(items, target.rank());
                assert(ranks[at] == items[at].key.rank());
                assert(leaf_get(before + more, target) == if target.rank() < start {
                    leaf_get(before, target)
                } else {
                    leaf_get(more, target)
                });
                if at < index {
                    assert(ranks[at + 1] == items[at + 1].key.rank());
                    assert(ranks[at + 1] <= ranks[index]);
                    assert(target.rank() < start);
                } else {
                    assert(subtree_get(blocks, items[index].child_block, inner, target)
                        == Ok::<Option<Seq<u8>>, BafsError>(leaf_get(more, target)));
                    if target.rank() < start {
                        assert(index == 0);
                        assert(before =~= Seq::empty());
                        assert(before + more =~= more);
                    }
                }
            }
        }
    }
}

/// A range scan finds exactly the items of the tree in the range, in the order
/// of their keys.
pub proof fn law_range_is_exact(
    blocks: Map<u64, Seq<u8>>,
    root: u64,
    min_key: BafsKey,
    max_key: BafsKey,
)
    requires
        tree_range(blocks, root, min_key, max_key) is Ok,
    ensures
        ({
            let found = tree_range(blocks, root, min_key, max_key)->Ok_0;
            &&& sorted(leaf_ranks(found))
            &&& within(leaf_ranks(found), min_key.rank(), max_key.rank() + 1)
            &&& forall|target: BafsKey|
                min_key.rank() <= target.rank() <= max_key.rank() && tree_get(
                    blocks,
                    root,
                    target,
                ) is Ok ==> #[trigger] tree_get(blocks, root, target) == Ok::<
                    Option<Seq<u8>>,
                    BafsError,
                >(leaf_get(found, target))
        }),
{
    lemma_range_of(blocks, root, root_span(), min_key.rank(), max_key.rank());
}

/// What a scan of a sound tree finds, in terms of the tree's items.
pub proof fn lemma_range_matches_map(
    blocks: Map<u64, Seq<u8>>,
    root: u64,
    min_key: BafsKey,
    max_key: BafsKey,
)
    requires
        tree_sound(blocks, root),
    ensures
        tree_range(blocks, root, min_key, max_key) is Ok,
        ({
            let found = tree_range(blocks, root, min_key, max_key)->Ok_0;
            let items = tree_map(blocks, root);
            &&& sorted(leaf_ranks(found))
            &&& forall|i: int|
                0 <= i < found.len() ==> {
                    &&& items.contains_key((#[trigger] found[i]).key)
                    &&& items[found[i].key] == found[i].value
                    &&& min_key.rank() <= found[i].key.rank() <= max_key.rank()
                }
            &&& forall|target: BafsKey| #[trigger]
                items.contains_key(target) && min_key.rank() <= target.rank() <= max_key.rank()
                    ==> exists|i: int| 0 <= i < found.len() && (#[trigger] found[i]).key == target
        }),
{
    law_sound_tree_can_be_scanned(blocks, root, min_key, max_key);
    law_range_is_exact(blocks, root, min_key, max_key);
    let found = tree_range(blocks, root, min_key, max_key)->Ok_0;
    let items = tree_map(blocks, root);
    assert forall|i: int| 0 <= i < found.len() implies {
        &&& items.contains_key((#[trigger] found[i]).key)
        &&& items[found[i].key] == found[i].value
        &&& min_key.rank() <= found[i].key.rank() <= max_key.rank()
    } by {
        assert(leaf_ranks(found)[i] == found[i].key.rank());
        lemma_leaf_position(found, found[i].key, i);
        assert(tree_get(blocks, root, found[i].key) is Ok);
    }
    assert forall|target: BafsKey| #[trigger]
        items.contains_key(target) && min_key.rank() <= target.rank()
            <= max_key.rank() implies exists|i: int|
        0 <= i < found.len() && (#[trigger] found[i]).key == target by {
        assert(tree_get(blocks, root, target) is Ok);
        let position = lower_bound(leaf_ranks(found), target.rank());
        lemma_lower_bound(leaf_ranks(found), target.rank());
        assert(found[position].key == target);
    }
}

/// Every lookup of a key that belongs into the subtree succeeds.
spec fn subtree_sound(blocks: Map<u64, Seq<u8>>, address: u64, span: Span) -> bool {
    forall|target: BafsKey|
        span.lower <= target.rank() < span.upper ==> #[trigger] subtree_get(
            blocks,
            address,
            span,
            target,
        ) is Ok
}

proof fn lemma_sound_range(
    blocks: Map<u64, Seq<u8>>,
    address: u64,
    span: Span,
    witness: BafsKey,
    min: int,
    max: int,
)
    requires
        subtree_sound(blocks, address, span),
        span.lower <= witness.rank() < span.upper,
    ensures
        range_of(blocks, address, span, min, max) is Ok,
    decreases span.levels, 0nat,
{
    assert(subtree_get(blocks, address, span, witness) is Ok);
    let node = checked_node(blocks, address, span)->Ok_0;
    if node.level > 0 {
        let items = node.internal_items;
        lemma_internal_node(blocks, address, span, 0, 0);
        assert forall|target: BafsKey|
            span.lower <= target.rank() < span.upper implies #[trigger] siblings_get(
            blocks,
            items,
            span.upper,
            node.level as nat,
            target,
        ) is Ok by {
            assert(subtree_get(blocks, address, span, target) is Ok);
        }
        lemma_sound_range_of_children(
            blocks,
            items,
            items.len(),
            span.lower,
            span.upper,
            node.level as nat,
            min,
            max,
        );
    }
}

proof fn lemma_sound_range_of_children(
    blocks: Map<u64, Seq<u8>>,
    items: Seq<BafsInternalItem>,
    count: nat,
    lower: int,
    upper: int,
    level: nat,
    min: int,
    max: int,
)
    requires
        0 <= count <= items.len(),
        sorted(separator_ranks(items)),
        within(separator_ranks(items), lower, upper),
        forall|target: BafsKey|
            lower <= target.rank() < upper ==> #[trigger] siblings_get(
                blocks,
                items,
                upper,
                level,
                target,
            ) is Ok,
    ensures
        range_of_children(blocks, items, count, upper, level, min, max) is Ok,
    decreases level, count,
{
    if count > 0 {
        let index = count - 1;
        let ranks = separator_ranks(items);
        lemma_sound_range_of_children(
            blocks,
            items,
            index as nat,
            lower,
            upper,
            level,
            min,
            max,
        );
        let inner = child_span(items, index, upper, level);
        let child = items[index].child_block;
        assert(ranks[index] == items[index].key.rank());
        if index + 1 < items.len() {
            assert(ranks[index + 1] == items[index + 1].key.rank());
        }
        assert forall|target: BafsKey|
            inner.lower <= target.rank() < inner.upper implies #[trigger] subtree_get(
            blocks,
            child,
            inner,
            target,
        ) is Ok by {
            lemma_child_index_is(items, target.rank(), index);
            assert(siblings_get(blocks, items, upper, level, target) is Ok);
        }
        lemma_sound_range(blocks, child, inner, items[index].key, min, max);
    }
}

/// In a sound tree every range scan succeeds.
pub proof fn law_sound_tree_can_be_scanned(
    blocks: Map<u64, Seq<u8>>,
    root: u64,
    min_key: BafsKey,
    max_key: BafsKey,
)
    requires
        tree_sound(blocks, root),
    ensures
        tree_range(blocks, root, min_key, max_key) is Ok,
{
    assert forall|target: BafsKey|
        root_span().lower <= target.rank() < root_span().upper implies #[trigger] subtree_get(
        blocks,
        root,
        root_span(),
        target,
    ) is Ok by {
        assert(tree_get(blocks, root, target) is Ok);
    }
    lemma_sound_range(blocks, root, root_span(), min_key, min_key.rank(), max_key.rank());
}

/// Two sorted lists with the same entries are the same list.
proof fn lemma_same_entries(left: Seq<LeafEntry>, right: Seq<LeafEntry>)
    requires
        sorted(leaf_ranks(left)),
        sorted(leaf_ranks(right)),
        forall|i: int| 0 <= i < left.len() ==> right.contains(#[trigger] left[i]),
        forall|i: int| 0 <= i < right.len() ==> left.contains(#[trigger] right[i]),
    ensures
        left == right,
    decreases left.len(),
{
    if left.len() == 0 {
        if right.len() > 0 {
            assert(left.contains(right[0]));
        }
        assert(left =~= right);
    } else {
        let a = left.len() - 1;
        let b = right.len() - 1;
        assert(right.contains(left[a]));
        let i = choose|i: int| 0 <= i < right.len() && right[i] == left[a];
        assert(left.contains(right[b]));
        let j = choose|j: int| 0 <= j < left.len() && left[j] == right[b];
        let left_ranks = leaf_ranks(left);
        let right_ranks = leaf_ranks(right);
        assert(right_ranks[i] == left_ranks[a]);
        assert(left_ranks[j] == right_ranks[b]);
        assert(i == b) by {
            if i < b {
                assert(right_ranks[i] < right_ranks[b]);
                if j < a {
                    assert(left_ranks[j] < left_ranks[a]);
                }
            }
        }
        let left_rest = left.drop_last();
        let right_rest = right.drop_last();
        assert(leaf_ranks(left_rest) =~= left_ranks.drop_last());
        assert(leaf_ranks(right_rest) =~= right_ranks.drop_last());
        assert forall|k: int| 0 <= k < left_rest.len() implies right_rest.contains(
            #[trigger] left_rest[k],
        ) by {
            assert(right.contains(left[k]));
            let m = choose|m: int| 0 <= m < right.len() && right[m] == left[k];
            assert(right_ranks[m] == left_ranks[k] < left_ranks[a]);
            assert(m != b);
            assert(right_rest[m] == left_rest[k]);
        }
        assert forall|k: int| 0 <= k < right_rest.len() implies left_rest.contains(
            #[trigger] right_rest[k],
        ) by {
            assert(left.contains(right[k]));
            let m = choose|m: int| 0 <= m < left.len() && left[m] == right[k];
            assert(left_ranks[m] == right_ranks[k] < right_ranks[b]);
            assert(m != a);
            assert(left_rest[m] == right_rest[k]);
        }
        lemma_same_entries(left_rest, right_rest);
        assert(left =~= left_rest.push(left[a]));
        assert(right =~= right_rest.push(right[b]));
    }
}

/// What a scan gives depends on the items in its range alone.
pub proof fn lemma_same_range(
    left: Map<u64, Seq<u8>>,
    left_root: u64,
    right: Map<u64, Seq<u8>>,
    right_root: u64,
    min_key: BafsKey,
    max_key: BafsKey,
)
    requires
        tree_sound(left, left_root),
        tree_sound(right, right_root),
        forall|target: BafsKey|
            min_key.rank() <= target.rank() <= max_key.rank() ==> #[trigger] tree_map(
                left,
                left_root,
            ).contains_key(target) == tree_map(right, right_root).contains_key(target) && (tree_map(
                left,
                left_root,
            ).contains_key(target) ==> tree_map(left, left_root)[target] == tree_map(
                right,
                right_root,
            )[target]),
    ensures
        tree_range(left, left_root, min_key, max_key) == tree_range(
            right,
            right_root,
            min_key,
            max_key,
        ),
{
    lemma_range_matches_map(left, left_root, min_key, max_key);
    lemma_range_matches_map(right, right_root, min_key, max_key);
    let left_items = tree_map(left, left_root);
    let right_items = tree_map(right, right_root);
    let left_found = tree_range(left, left_root, min_key, max_key)->Ok_0;
    let right_found = tree_range(right, right_root, min_key, max_key)->Ok_0;
    assert forall|i: int| 0 <= i < left_found.len() implies right_found.contains(
        #[trigger] left_found[i],
    ) by {
        let key = left_found[i].key;
        assert(left_items.contains_key(key));
        assert(right_items.contains_key(key));
        let j = choose|j: int|
            0 <= j < right_found.len() && (#[trigger] right_found[j]).key == key;
        assert(right_found[j] == left_found[i]);
    }
    assert forall|i: int| 0 <= i < right_found.len() implies left_found.contains(
        #[trigger] right_found[i],
    ) by {
        let key = right_found[i].key;
        assert(right_items.contains_key(key));
        assert(left_items.contains_key(key));
        let j = choose|j: int| 0 <= j < left_found.len() && (#[trigger] left_found[j]).key == key;
        assert(left_found[j] == right_found[i]);
    }
    lemma_same_entries(left_found, right_found);
}

} // verus!
