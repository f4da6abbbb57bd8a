//! Which blocks a tree is made of, and that a change takes the superseded ones out
//! of it.

use vstd::prelude::*;
use super::growth;
use super::key::BafsKey;
use super::model;
use super::model::Span;
use super::node;
use super::node::{BafsInternalItem, LeafEntry, NodeModel};
use super::store;
use super::tree;
use super::tree::SplitResult;

verus! {

/// The block `target` holds a node of the subtree at `address`, whose top node has a
/// level below `levels`.
pub open spec fn reaches(
    blocks: Map<u64, Seq<u8>>,
    address: u64,
    levels: nat,
    target: u64,
) -> bool
    decreases levels,
{
    ||| target == address
    ||| match store::node_at(blocks, address) {
        Err(_) => false,
        Ok(top) => 0 < top.level < levels && exists|i: int|
            0 <= i < top.internal_items.len() && reaches(
                blocks,
                (#[trigger] top.internal_items[i]).child_block,
                top.level as nat,
                target,
            ),
    }
}

/// Two subtrees have no block in common.
pub open spec fn separate(
    blocks: Map<u64, Seq<u8>>,
    left: u64,
    right: u64,
    levels: nat,
) -> bool {
    forall|target: u64|
        #![trigger reaches(blocks, left, levels, target)]
        #![trigger reaches(blocks, right, levels, target)]
        !(reaches(blocks, left, levels, target) && reaches(blocks, right, levels, target))
}

/// No two of the siblings have a block in common.
pub open spec fn all_separate(
    blocks: Map<u64, Seq<u8>>,
    items: Seq<BafsInternalItem>,
    levels: nat,
) -> bool {
    forall|i: int, j: int|
        0 <= i < j < items.len() ==> separate(
            blocks,
            (#[trigger] items[i]).child_block,
            (#[trigger] items[j]).child_block,
            levels,
        )
}

/// No block stands at two places of a subtree.
pub open spec fn unshared(blocks: Map<u64, Seq<u8>>, address: u64, levels: nat) -> bool
    decreases levels,
{
    match store::node_at(blocks, address) {
        Err(_) => true,
        Ok(top) => 0 < top.level < levels ==> {
            &&& all_separate(blocks, top.internal_items, top.level as nat)
            &&& forall|i: int|
                0 <= i < top.internal_items.len() ==> unshared(
                    blocks,
                    (#[trigger] top.internal_items[i]).child_block,
                    top.level as nat,
                )
            &&& forall|i: int|
                0 <= i < top.internal_items.len() ==> !reaches(
                    blocks,
                    (#[trigger] top.internal_items[i]).child_block,
                    top.level as nat,
                    address,
                )
        },
    }
}

/// All blocks of a subtree lie below `bound`.
pub open spec fn lies_below(
    blocks: Map<u64, Seq<u8>>,
    address: u64,
    levels: nat,
    bound: int,
) -> bool {
    forall|target: u64| #[trigger] reaches(blocks, address, levels, target) ==> target < bound
}

/// The block `target` is one of the new ones, or it belonged to the subtree at
/// `address` without being on the way to `rank`.
pub open spec fn new_or_kept(
    before: Map<u64, Seq<u8>>,
    address: u64,
    span: Span,
    rank: int,
    target: u64,
    start: int,
    end: int,
) -> bool {
    ||| start <= target < end
    ||| reaches(before, address, span.levels, target) && !model::path_to(
        before,
        address,
        span,
        rank,
    ).contains(target)
}

/// A subtree is made of new blocks and of kept ones, and of none twice.
pub open spec fn made_of(
    before: Map<u64, Seq<u8>>,
    after: Map<u64, Seq<u8>>,
    address: u64,
    span: Span,
    rank: int,
    top: u64,
    levels: nat,
    start: int,
    end: int,
) -> bool {
    &&& unshared(after, top, levels)
    &&& forall|target: u64| #[trigger]
        reaches(after, top, levels, target) ==> new_or_kept(
            before,
            address,
            span,
            rank,
            target,
            start,
            end,
        )
}

/// A subtree whose blocks stay is made of the same blocks.
proof fn lemma_reach_agrees(
    before: Map<u64, Seq<u8>>,
    after: Map<u64, Seq<u8>>,
    address: u64,
    levels: nat,
    bound: int,
)
    requires
        model::agree(before, after, 0, bound),
        lies_below(before, address, levels, bound),
    ensures
        forall|target: u64|
            #![trigger reaches(after, address, levels, target)]
            #![trigger reaches(before, address, levels, target)]
            reaches(after, address, levels, target) == reaches(before, address, levels, target),
        unshared(before, address, levels) ==> unshared(after, address, levels),
    decreases levels,
{
    assert(reaches(before, address, levels, address));
    assert(before.contains_key(address) == after.contains_key(address));
    assert(store::node_at(before, address) == store::node_at(after, address));
    if store::node_at(before, address) is Ok {
        let top = store::node_at(before, address)->Ok_0;
        let level = top.level as nat;
        if 0 < top.level < levels {
            assert forall|i: int| 0 <= i < top.internal_items.len() implies {
                let child = (#[trigger] top.internal_items[i]).child_block;
                &&& forall|target: u64|
                    #![trigger reaches(after, child, level, target)]
                    #![trigger reaches(before, child, level, target)]
                    reaches(after, child, level, target) == reaches(before, child, level, target)
                &&& unshared(before, child, level) ==> unshared(after, child, level)
            } by {
                let child = top.internal_items[i].child_block;
                assert forall|target: u64| #[trigger]
                    reaches(before, child, level, target) implies target < bound by {
                    assert(reaches(before, address, levels, target));
                }
                lemma_reach_agrees(before, after, child, level, bound);
            }
            assert forall|target: u64|
                reaches(after, address, levels, target) == reaches(
                    before,
                    address,
                    levels,
                    target,
                ) by {
                if reaches(after, address, levels, target) && target != address {
                    let i = choose|i: int|
                        0 <= i < top.internal_items.len() && reaches(
                            after,
                            (#[trigger] top.internal_items[i]).child_block,
                            level,
                            target,
                        );
                    assert(reaches(before, top.internal_items[i].child_block, level, target));
                }
                if reaches(before, address, levels, target) && target != address {
                    let i = choose|i: int|
                        0 <= i < top.internal_items.len() && reaches(
                            before,
                            (#[trigger] top.internal_items[i]).child_block,
                            level,
                            target,
                        );
                    assert(reaches(after, top.internal_items[i].child_block, level, target));
                }
            }
        }
    }
}

/// The nodes on the way to a key belong to the subtree.
proof fn lemma_path_reached(
    blocks: Map<u64, Seq<u8>>,
    address: u64,
    span: Span,
    rank: int,
    target: u64,
)
    requires
        model::path_to(blocks, address, span, rank).contains(target),
    ensures
        reaches(blocks, address, span.levels, target),
    decreases span.levels,
{
    let top = model::checked_node(blocks, address, span)->Ok_0;
    if model::checked_node(blocks, address, span) is Ok && top.level > 0 && target != address {
        let index = model::child_index(top.internal_items, rank);
        let child = top.internal_items[index].child_block;
        let child_span = model::child_span(
            top.internal_items,
            index,
            span.upper,
            top.level as nat,
        );
        let below = model::path_to(blocks, child, child_span, rank);
        let path = below.push(address);
        let at = choose|at: int| 0 <= at < path.len() && path[at] == target;
        assert(below[at] == target);
        lemma_path_reached(blocks, child, child_span, rank, target);
        model::lemma_child_index(top.internal_items, rank);
    }
}

/// A node over siblings that are made of new and kept blocks is so as well.
proof fn lemma_node_made_of(
    before: Map<u64, Seq<u8>>,
    after: Map<u64, Seq<u8>>,
    address: u64,
    span: Span,
    rank: int,
    top: u64,
    level: u8,
    items: Seq<BafsInternalItem>,
    levels: nat,
    start: int,
    middle: int,
    end: int,
)
    requires
        growth::holds_internal(after, top, level, items),
        0 < level < levels,
        start <= middle <= top < end,
        lies_below(before, address, span.levels, start),
        all_separate(after, items, level as nat),
        forall|i: int|
            0 <= i < items.len() ==> made_of(
                before,
                after,
                address,
                span,
                rank,
                (#[trigger] items[i]).child_block,
                level as nat,
                start,
                middle,
            ),
    ensures
        made_of(before, after, address, span, rank, top, levels, start, end),
        forall|target: u64|
            reaches(after, top, levels, target) && target != top ==> exists|i: int|
                0 <= i < items.len() && reaches(
                    after,
                    (#[trigger] items[i]).child_block,
                    level as nat,
                    target,
                ) && target < middle,
{
    assert forall|i: int, target: u64|
        0 <= i < items.len() && #[trigger] reaches(
            after,
            items[i].child_block,
            level as nat,
            target,
        ) implies target < middle by {
        assert(made_of(
            before,
            after,
            address,
            span,
            rank,
            items[i].child_block,
            level as nat,
            start,
            middle,
        ));
    }
    assert forall|target: u64| #[trigger] reaches(after, top, levels, target) implies new_or_kept(
        before,
        address,
        span,
        rank,
        target,
        start,
        end,
    ) by {
        if target != top {
            let i = choose|i: int|
                0 <= i < items.len() && reaches(
                    after,
                    (#[trigger] items[i]).child_block,
                    level as nat,
                    target,
                );
            assert(made_of(
                before,
                after,
                address,
                span,
                rank,
                items[i].child_block,
                level as nat,
                start,
                middle,
            ));
        }
    }
    assert forall|i: int| 0 <= i < items.len() implies unshared(
        after,
        (#[trigger] items[i]).child_block,
        level as nat,
    ) && !reaches(after, items[i].child_block, level as nat, top) by {
        assert(made_of(
            before,
            after,
            address,
            span,
            rank,
            items[i].child_block,
            level as nat,
            start,
            middle,
        ));
    }
}

/// What a change finds of an internal node on its way.
pub open spec fn on_the_way(
    before: Map<u64, Seq<u8>>,
    after: Map<u64, Seq<u8>>,
    address: u64,
    span: Span,
    parent: NodeModel,
    index: int,
    rank: int,
    start: int,
) -> bool {
    &&& model::checked_node(before, address, span) is Ok
    &&& model::checked_node(before, address, span)->Ok_0 == parent
    &&& parent.level > 0
    &&& index == model::child_index(parent.internal_items, rank)
    &&& 0 <= index < parent.internal_items.len()
    &&& unshared(before, address, span.levels)
    &&& lies_below(before, address, span.levels, start)
    &&& model::agree(before, after, 0, start)
}

/// A sibling of the replaced child stays as it is.
proof fn lemma_sibling_made_of(
    before: Map<u64, Seq<u8>>,
    after: Map<u64, Seq<u8>>,
    address: u64,
    span: Span,
    parent: NodeModel,
    index: int,
    rank: int,
    start: int,
    middle: int,
    other: int,
)
    requires
        on_the_way(before, after, address, span, parent, index, rank, start),
        0 <= other < parent.internal_items.len(),
        other != index,
    ensures
        made_of(
            before,
            after,
            address,
            span,
            rank,
            parent.internal_items[other].child_block,
            parent.level as nat,
            start,
            middle,
        ),
        lies_below(
            before,
            parent.internal_items[other].child_block,
            parent.level as nat,
            start,
        ),
        forall|target: u64| #[trigger]
            reaches(
                after,
                parent.internal_items[other].child_block,
                parent.level as nat,
                target,
            ) == reaches(
                before,
                parent.internal_items[other].child_block,
                parent.level as nat,
                target,
            ),
{
    let level = parent.level as nat;
    let items = parent.internal_items;
    let sibling = items[other].child_block;
    let child = items[index].child_block;
    let child_span = model::child_span(items, index, span.upper, level);
    assert forall|target: u64| #[trigger] reaches(before, sibling, level, target) implies target
        < start by {
        assert(reaches(before, address, span.levels, target));
    }
    lemma_reach_agrees(before, after, sibling, level, start);
    assert forall|target: u64| #[trigger] reaches(after, sibling, level, target) implies new_or_kept(
        before,
        address,
        span,
        rank,
        target,
        start,
        middle,
    ) by {
        assert(reaches(before, sibling, level, target));
        assert(reaches(before, address, span.levels, target));
        let below = model::path_to(before, child, child_span, rank);
        let path = model::path_to(before, address, span, rank);
        assert(path == below.push(address));
        if path.contains(target) {
            let at = choose|at: int| 0 <= at < path.len() && path[at] == target;
            if at < below.len() {
                assert(below[at] == target);
                lemma_path_reached(before, child, child_span, rank, target);
                if other < index {
                    assert(separate(before, sibling, child, level));
                } else {
                    assert(separate(before, child, sibling, level));
                }
            }
        }
    }
}

/// A part that took the place of the child on the way.
proof fn lemma_part_made_of(
    before: Map<u64, Seq<u8>>,
    after: Map<u64, Seq<u8>>,
    address: u64,
    span: Span,
    parent: NodeModel,
    index: int,
    rank: int,
    start: int,
    middle: int,
    part: u64,
)
    requires
        on_the_way(before, after, address, span, parent, index, rank, start),
        made_of(
            before,
            after,
            parent.internal_items[index].child_block,
            model::child_span(parent.internal_items, index, span.upper, parent.level as nat),
            rank,
            part,
            parent.level as nat,
            start,
            middle,
        ),
    ensures
        made_of(
            before,
            after,
            address,
            span,
            rank,
            part,
            parent.level as nat,
            start,
            middle,
        ),
        forall|other: int|
            0 <= other < parent.internal_items.len() && other != index ==> separate(
                after,
                part,
                (#[trigger] parent.internal_items[other]).child_block,
                parent.level as nat,
            ),
{
    let level = parent.level as nat;
    let items = parent.internal_items;
    let child = items[index].child_block;
    let child_span = model::child_span(items, index, span.upper, level);
    assert forall|target: u64| #[trigger] reaches(after, part, level, target) implies new_or_kept(
        before,
        address,
        span,
        rank,
        target,
        start,
        middle,
    ) by {
        if !(start <= target < middle) {
            assert(reaches(before, child, level, target));
            assert(reaches(before, address, span.levels, target));
            let below = model::path_to(before, child, child_span, rank);
            let path = model::path_to(before, address, span, rank);
            assert(path == below.push(address));
            if path.contains(target) {
                let at = choose|at: int| 0 <= at < path.len() && path[at] == target;
                if at < below.len() {
                    assert(below[at] == target);
                }
            }
        }
    }
    assert forall|other: int| 0 <= other < items.len() && other != index implies separate(
        after,
        part,
        (#[trigger] items[other]).child_block,
        level,
    ) by {
        let sibling = items[other].child_block;
        lemma_sibling_made_of(
            before,
            after,
            address,
            span,
            parent,
            index,
            rank,
            start,
            middle,
            other,
        );
        assert forall|target: u64|
            #![trigger reaches(after, part, level, target)]
            #![trigger reaches(after, sibling, level, target)]
            !(reaches(after, part, level, target) && reaches(after, sibling, level, target)) by {
            if reaches(after, part, level, target) && reaches(after, sibling, level, target) {
                assert(reaches(before, sibling, level, target));
                assert(reaches(before, child, level, target));
                if other < index {
                    assert(separate(before, sibling, child, level));
                } else {
                    assert(separate(before, child, sibling, level));
                }
            }
        }
    }
}

/// The children of an internal node after the one on the way was replaced.
#[verifier::spinoff_prover]
#[verifier::rlimit(40)]
proof fn lemma_children_made_of(
    before: Map<u64, Seq<u8>>,
    after: Map<u64, Seq<u8>>,
    address: u64,
    span: Span,
    parent: NodeModel,
    index: int,
    key: BafsKey,
    new_child: u64,
    new_split: Option<SplitResult>,
    generation: u64,
    start: int,
    middle: int,
)
    requires
        on_the_way(before, after, address, span, parent, index, key.rank(), start),
        made_of(
            before,
            after,
            parent.internal_items[index].child_block,
            model::child_span(parent.internal_items, index, span.upper, parent.level as nat),
            key.rank(),
            new_child,
            parent.level as nat,
            start,
            middle,
        ),
        new_split matches Some(right) ==> made_of(
            before,
            after,
            parent.internal_items[index].child_block,
            model::child_span(parent.internal_items, index, span.upper, parent.level as nat),
            key.rank(),
            right.child_block,
            parent.level as nat,
            start,
            middle,
        ) && separate(after, new_child, right.child_block, parent.level as nat),
    ensures
        ({
            let items = growth::with_child_replaced(
                parent.internal_items,
                index,
                key,
                new_child,
                new_split,
                generation,
            );
            &&& all_separate(after, items, parent.level as nat)
            &&& forall|i: int|
                0 <= i < items.len() ==> made_of(
                    before,
                    after,
                    address,
                    span,
                    key.rank(),
                    (#[trigger] items[i]).child_block,
                    parent.level as nat,
                    start,
                    middle,
                )
        }),
{
    let rank = key.rank();
    let level = parent.level as nat;
    let old_items = parent.internal_items;
    let parts = tree::parts_of(
        tree::lesser(key, old_items[index].key),
        new_child,
        new_split,
        generation,
    );
    let items = growth::with_child_replaced(
        old_items,
        index,
        key,
        new_child,
        new_split,
        generation,
    );
    let more = parts.len() - 1;
    lemma_part_made_of(
        before,
        after,
        address,
        span,
        parent,
        index,
        rank,
        start,
        middle,
        new_child,
    );
    if let Some(right) = new_split {
        lemma_part_made_of(
            before,
            after,
            address,
            span,
            parent,
            index,
            rank,
            start,
            middle,
            right.child_block,
        );
    }
    assert forall|i: int| 0 <= i < items.len() implies {
        ||| i < index && items[i] == old_items[i]
        ||| index <= i <= index + more && items[i] == parts[i - index]
        ||| index + more < i && items[i] == old_items[i - more]
    } by {}
    assert forall|i: int| 0 <= i < items.len() implies made_of(
        before,
        after,
        address,
        span,
        rank,
        (#[trigger] items[i]).child_block,
        level,
        start,
        middle,
    ) by {
        if i < index || index + more < i {
            let other = if i < index {
                i
            } else {
                i - more
            };
            lemma_sibling_made_of(
                before,
                after,
                address,
                span,
                parent,
                index,
                rank,
                start,
                middle,
                other,
            );
        }
    }
    assert forall|i: int, j: int| 0 <= i < j < items.len() implies separate(
        after,
        (#[trigger] items[i]).child_block,
        (#[trigger] items[j]).child_block,
        level,
    ) by {
        let first_part = index <= i <= index + more;
        let second_part = index <= j <= index + more;
        let first = if i < index {
            i
        } else {
            i - more
        };
        let second = if j < index {
            j
        } else {
            j - more
        };
        if first_part && second_part {
        } else if first_part {
            assert(items[j] == old_items[second]);
            assert(separate(after, items[i].child_block, old_items[second].child_block, level));
        } else if second_part {
            assert(items[i] == old_items[first]);
            assert(separate(after, items[j].child_block, old_items[first].child_block, level));
        } else {
            lemma_siblings_separate(
                before,
                after,
                address,
                span,
                parent,
                index,
                rank,
                start,
                first,
                second,
            );
        }
    }
}

proof fn lemma_siblings_separate(
    before: Map<u64, Seq<u8>>,
    after: Map<u64, Seq<u8>>,
    address: u64,
    span: Span,
    parent: NodeModel,
    index: int,
    rank: int,
    start: int,
    first: int,
    second: int,
)
    requires
        on_the_way(before, after, address, span, parent, index, rank, start),
        0 <= first < second < parent.internal_items.len(),
        first != index,
        second != index,
    ensures
        separate(
            after,
            parent.internal_items[first].child_block,
            parent.internal_items[second].child_block,
            parent.level as nat,
        ),
{
    lemma_sibling_made_of(
        before,
        after,
        address,
        span,
        parent,
        index,
        rank,
        start,
        start,
        first,
    );
    lemma_sibling_made_of(
        before,
        after,
        address,
        span,
        parent,
        index,
        rank,
        start,
        start,
        second,
    );
    let level = parent.level as nat;
    let left = parent.internal_items[first].child_block;
    let right = parent.internal_items[second].child_block;
    assert(separate(before, left, right, level));
    assert forall|target: u64|
        #![trigger reaches(after, left, level, target)]
        #![trigger reaches(after, right, level, target)]
        !(reaches(after, left, level, target) && reaches(after, right, level, target)) by {
        if reaches(after, left, level, target) && reaches(after, right, level, target) {
            assert(reaches(before, left, level, target));
            assert(reaches(before, right, level, target));
        }
    }
}

/// The two halves of a node that was cut have no block in common.
proof fn lemma_halves_separate(
    after: Map<u64, Seq<u8>>,
    left: u64,
    right: u64,
    level: u8,
    items: Seq<BafsInternalItem>,
    cut: int,
    levels: nat,
    middle: int,
)
    requires
        0 <= cut <= items.len(),
        growth::holds_internal(after, left, level, items.take(cut)),
        growth::holds_internal(after, right, level, items.skip(cut)),
        0 < level < levels,
        left != right,
        middle <= left,
        middle <= right,
        all_separate(after, items, level as nat),
        forall|i: int, target: u64|
            0 <= i < items.len() && #[trigger] reaches(
                after,
                items[i].child_block,
                level as nat,
                target,
            ) ==> target < middle,
    ensures
        separate(after, left, right, levels),
{
    let first = items.take(cut);
    let second = items.skip(cut);
    assert forall|target: u64|
        #![trigger reaches(after, left, levels, target)]
        #![trigger reaches(after, right, levels, target)]
        !(reaches(after, left, levels, target) && reaches(after, right, levels, target)) by {
        if reaches(after, left, levels, target) && reaches(after, right, levels, target) {
            if target != left {
                let i = choose|i: int|
                    0 <= i < first.len() && reaches(
                        after,
                        (#[trigger] first[i]).child_block,
                        level as nat,
                        target,
                    );
                assert(first[i] == items[i]);
                assert(target < middle);
                let j = choose|j: int|
                    0 <= j < second.len() && reaches(
                        after,
                        (#[trigger] second[j]).child_block,
                        level as nat,
                        target,
                    );
                assert(second[j] == items[cut + j]);
                assert(separate(
                    after,
                    items[i].child_block,
                    items[cut + j].child_block,
                    level as nat,
                ));
            } else {
                let j = choose|j: int|
                    0 <= j < second.len() && reaches(
                        after,
                        (#[trigger] second[j]).child_block,
                        level as nat,
                        target,
                    );
                assert(second[j] == items[cut + j]);
            }
        }
    }
}

/// A leaf is made of its block alone.
proof fn lemma_leaf_made_of(
    before: Map<u64, Seq<u8>>,
    after: Map<u64, Seq<u8>>,
    address: u64,
    span: Span,
    rank: int,
    top: u64,
    items: Seq<LeafEntry>,
    levels: nat,
    start: int,
    end: int,
)
    requires
        growth::holds_leaf(after, top, items),
        start <= top < end,
    ensures
        made_of(before, after, address, span, rank, top, levels, start, end),
        forall|target: u64| #[trigger] reaches(after, top, levels, target) ==> target == top,
{
}

/// What the nodes are made of that were written on the way to a key.
#[verifier::spinoff_prover]
#[verifier::rlimit(60)]
proof fn lemma_path_made_of(
    before: Map<u64, Seq<u8>>,
    after: Map<u64, Seq<u8>>,
    address: u64,
    span: Span,
    key: BafsKey,
    change: Option<Seq<u8>>,
    generation: u64,
    left: u64,
    split: Option<SplitResult>,
    start: int,
    end: int,
    levels: nat,
)
    requires
        growth::path_written(
            before,
            after,
            address,
            span,
            key,
            change,
            generation,
            left,
            split,
            start,
            end,
        ),
        unshared(before, address, span.levels),
        lies_below(before, address, span.levels, start),
        model::agree(before, after, 0, start),
        model::checked_node(before, address, span)->Ok_0.level < levels,
    ensures
        start < end,
        left == end - 1,
        made_of(before, after, address, span, key.rank(), left, levels, start, end),
        split matches Some(right) ==> {
            &&& start <= right.child_block < end
            &&& made_of(
                before,
                after,
                address,
                span,
                key.rank(),
                right.child_block,
                levels,
                start,
                end,
            )
            &&& separate(after, left, right.child_block, levels)
        },
    decreases span.levels,
{
    let rank = key.rank();
    let parent = model::checked_node(before, address, span)->Ok_0;
    if parent.level == 0 {
        let items = growth::leaf_changed(parent.leaf_items, key, change);
        if node::leaf_size(items) <= 4096 {
            lemma_leaf_made_of(
                before,
                after,
                address,
                span,
                rank,
                left,
                items,
                levels,
                start,
                end,
            );
        } else {
            let right = split->Some_0;
            let cut = model::leaf_cut_place(items);
            lemma_leaf_made_of(
                before,
                after,
                address,
                span,
                rank,
                left,
                items.take(cut),
                levels,
                start,
                end,
            );
            lemma_leaf_made_of(
                before,
                after,
                address,
                span,
                rank,
                right.child_block,
                items.skip(cut),
                levels,
                start,
                end,
            );
        }
    } else {
        let level = parent.level as nat;
        let index = model::child_index(parent.internal_items, rank);
        model::lemma_child_index(parent.internal_items, rank);
        let child = parent.internal_items[index].child_block;
        let child_span = model::child_span(parent.internal_items, index, span.upper, level);
        let (new_child, new_split, middle) = choose|
            new_child: u64,
            new_split: Option<SplitResult>,
            middle: int,
        | #[trigger]
            growth::parent_written(
                after,
                parent,
                index,
                key,
                change,
                new_child,
                new_split,
                generation,
                left,
                split,
                middle,
                end,
            ) && growth::path_written(
                before,
                after,
                child,
                child_span,
                key,
                change,
                generation,
                new_child,
                new_split,
                start,
                middle,
            );
        assert forall|target: u64| #[trigger] reaches(before, child, level, target) implies target
            < start by {
            assert(reaches(before, address, span.levels, target));
        }
        assert(model::checked_node(before, child, child_span) is Ok);
        lemma_path_made_of(
            before,
            after,
            child,
            child_span,
            key,
            change,
            generation,
            new_child,
            new_split,
            start,
            middle,
            level,
        );
        assert(on_the_way(before, after, address, span, parent, index, rank, start));
        lemma_children_made_of(
            before,
            after,
            address,
            span,
            parent,
            index,
            key,
            new_child,
            new_split,
            generation,
            start,
            middle,
        );
        let items = growth::with_child_replaced(
            parent.internal_items,
            index,
            key,
            new_child,
            new_split,
            generation,
        );
        lemma_parent_made_of(
            before,
            after,
            address,
            span,
            rank,
            parent.level,
            items,
            change is None,
            left,
            split,
            levels,
            start,
            middle,
            end,
        );
    }
}

/// An internal node that was written again, over children that are made of new and
/// kept blocks.
#[verifier::spinoff_prover]
#[verifier::rlimit(40)]
proof fn lemma_parent_made_of(
    before: Map<u64, Seq<u8>>,
    after: Map<u64, Seq<u8>>,
    address: u64,
    span: Span,
    rank: int,
    level: u8,
    items: Seq<BafsInternalItem>,
    whole: bool,
    left: u64,
    split: Option<SplitResult>,
    levels: nat,
    start: int,
    middle: int,
    end: int,
)
    requires
        if whole {
            &&& split is None
            &&& left == middle
            &&& end == middle + 1
            &&& growth::holds_internal(after, left, level, items)
        } else {
            growth::internal_written(after, level, items, left, split, middle, end)
        },
        0 < level < levels,
        start <= middle,
        lies_below(before, address, span.levels, start),
        all_separate(after, items, level as nat),
        forall|i: int|
            0 <= i < items.len() ==> made_of(
                before,
                after,
                address,
                span,
                rank,
                (#[trigger] items[i]).child_block,
                level as nat,
                start,
                middle,
            ),
    ensures
        left == end - 1,
        middle < end,
        made_of(before, after, address, span, rank, left, levels, start, end),
        split matches Some(right) ==> {
            &&& middle <= right.child_block < end
            &&& made_of(
                before,
                after,
                address,
                span,
                rank,
                right.child_block,
                levels,
                start,
                end,
            )
            &&& separate(after, left, right.child_block, levels)
        },
{
    if split is None {
        lemma_node_made_of(
            before,
            after,
            address,
            span,
            rank,
            left,
            level,
            items,
            levels,
            start,
            middle,
            end,
        );
    } else {
        let cut = items.len() as int / 2;
        let right = split->Some_0.child_block;
        let first = items.take(cut);
        let second = items.skip(cut);
        assert forall|i: int| 0 <= i < first.len() implies made_of(
            before,
            after,
            address,
            span,
            rank,
            (#[trigger] first[i]).child_block,
            level as nat,
            start,
            middle,
        ) by {
            assert(first[i] == items[i]);
        }
        assert forall|i: int| 0 <= i < second.len() implies made_of(
            before,
            after,
            address,
            span,
            rank,
            (#[trigger] second[i]).child_block,
            level as nat,
            start,
            middle,
        ) by {
            assert(second[i] == items[cut + i]);
        }
        assert forall|i: int, j: int| 0 <= i < j < first.len() implies separate(
            after,
            (#[trigger] first[i]).child_block,
            (#[trigger] first[j]).child_block,
            level as nat,
        ) by {
            assert(first[i] == items[i] && first[j] == items[j]);
        }
        assert forall|i: int, j: int| 0 <= i < j < second.len() implies separate(
            after,
            (#[trigger] second[i]).child_block,
            (#[trigger] second[j]).child_block,
            level as nat,
        ) by {
            assert(second[i] == items[cut + i] && second[j] == items[cut + j]);
        }
        lemma_node_made_of(
            before,
            after,
            address,
            span,
            rank,
            left,
            level,
            first,
            levels,
            start,
            middle,
            end,
        );
        lemma_node_made_of(
            before,
            after,
            address,
            span,
            rank,
            right,
            level,
            second,
            levels,
            start,
            middle,
            end,
        );
        assert forall|i: int, target: u64|
            0 <= i < items.len() && #[trigger] reaches(
                after,
                items[i].child_block,
                level as nat,
                target,
            ) implies target < middle by {
            assert(made_of(
                before,
                after,
                address,
                span,
                rank,
                items[i].child_block,
                level as nat,
                start,
                middle,
            ));
        }
        lemma_halves_separate(after, left, right, level, items, cut, levels, middle);
    }
}

/// What a change makes of a tree, seen by its blocks: none of the superseded ones
/// belongs to it any more, and what belongs to it did so before or is one of the new
/// ones, `start .. end`. No block stands at two places of it.
pub open spec fn superseded_left(
    before: Map<u64, Seq<u8>>,
    after: Map<u64, Seq<u8>>,
    root: u64,
    key: BafsKey,
    new_root: u64,
    start: int,
    end: int,
) -> bool {
    let levels = model::root_span().levels;
    let path = model::path_to(before, root, model::root_span(), key.rank());
    &&& unshared(after, new_root, levels)
    &&& lies_below(after, new_root, levels, end)
    &&& forall|target: u64| #[trigger]
        path.contains(target) ==> reaches(before, root, levels, target) && !reaches(
            after,
            new_root,
            levels,
            target,
        )
    &&& forall|target: u64| #[trigger]
        reaches(after, new_root, levels, target) ==> start <= target < end || reaches(
            before,
            root,
            levels,
            target,
        )
}

proof fn lemma_superseded_left(
    before: Map<u64, Seq<u8>>,
    after: Map<u64, Seq<u8>>,
    root: u64,
    key: BafsKey,
    new_root: u64,
    start: int,
    end: int,
)
    requires
        start <= end,
        lies_below(before, root, model::root_span().levels, start),
        made_of(
            before,
            after,
            root,
            model::root_span(),
            key.rank(),
            new_root,
            model::root_span().levels,
            start,
            end,
        ),
    ensures
        superseded_left(before, after, root, key, new_root, start, end),
{
    let levels = model::root_span().levels;
    let path = model::path_to(before, root, model::root_span(), key.rank());
    assert forall|target: u64| #[trigger] path.contains(target) implies reaches(
        before,
        root,
        levels,
        target,
    ) && !reaches(after, new_root, levels, target) by {
        lemma_path_reached(before, root, model::root_span(), key.rank(), target);
    }
}

/// A leaf alone is a tree of one block.
pub proof fn law_single_leaf_is_unshared(
    blocks: Map<u64, Seq<u8>>,
    root: u64,
    items: Seq<LeafEntry>,
)
    requires
        growth::holds_leaf(blocks, root, items),
    ensures
        unshared(blocks, root, model::root_span().levels),
        forall|target: u64| #[trigger]
            reaches(blocks, root, model::root_span().levels, target) ==> target == root,
{
}

/// The nodes that an insertion supersedes do not belong to the new tree, and no
/// block stands at two places of it.
#[verifier::spinoff_prover]
#[verifier::rlimit(40)]
pub proof fn law_insertion_leaves_superseded_nodes(
    before: Map<u64, Seq<u8>>,
    after: Map<u64, Seq<u8>>,
    root: u64,
    key: BafsKey,
    value: Seq<u8>,
    generation: u64,
    new_root: u64,
    start: int,
    end: int,
)
    requires
        growth::insertion_written(
            before,
            after,
            root,
            key,
            value,
            generation,
            new_root,
            start,
            end,
        ),
        tree::insert_error(before, root, key, value) is None,
        unshared(before, root, model::root_span().levels),
        lies_below(before, root, model::root_span().levels, start),
        model::agree(before, after, 0, start),
    ensures
        superseded_left(before, after, root, key, new_root, start, end),
{
    let span = model::root_span();
    let levels = span.levels;
    let (left, split, middle) = choose|left: u64, split: Option<SplitResult>, middle: int| #[trigger]
        growth::root_written(after, left, split, generation, new_root, middle, end)
            && growth::path_written(
            before,
            after,
            root,
            span,
            key,
            Some(value),
            generation,
            left,
            split,
            start,
            middle,
        );
    let level = model::checked_node(before, root, span)->Ok_0.level;
    match split {
        None => {
            lemma_path_made_of(
                before,
                after,
                root,
                span,
                key,
                Some(value),
                generation,
                left,
                split,
                start,
                middle,
                levels,
            );
        },
        Some(right) => {
            let top = store::node_at(after, left)->Ok_0;
            let parts = tree::parts_of(growth::first_key(top), left, split, generation);
            lemma_top_level(
                before,
                after,
                root,
                span,
                key,
                Some(value),
                generation,
                left,
                split,
                start,
                middle,
            );
            lemma_path_made_of(
                before,
                after,
                root,
                span,
                key,
                Some(value),
                generation,
                left,
                split,
                start,
                middle,
                (level + 1) as nat,
            );
            assert(parts[0].child_block == left && parts[1].child_block == right.child_block);
            lemma_node_made_of(
                before,
                after,
                root,
                span,
                key.rank(),
                new_root,
                (level + 1) as u8,
                parts,
                levels,
                start,
                middle,
                end,
            );
        },
    }
    lemma_superseded_left(before, after, root, key, new_root, start, end);
}

/// The node that takes the place of another one has the same level.
proof fn lemma_top_level(
    before: Map<u64, Seq<u8>>,
    after: Map<u64, Seq<u8>>,
    address: u64,
    span: Span,
    key: BafsKey,
    change: Option<Seq<u8>>,
    generation: u64,
    left: u64,
    split: Option<SplitResult>,
    start: int,
    end: int,
)
    requires
        growth::path_written(
            before,
            after,
            address,
            span,
            key,
            change,
            generation,
            left,
            split,
            start,
            end,
        ),
    ensures
        store::node_at(after, left) is Ok,
        store::node_at(after, left)->Ok_0.level == model::checked_node(
            before,
            address,
            span,
        )->Ok_0.level,
{
}

/// The nodes that a deletion supersedes do not belong to the new tree, and no block
/// stands at two places of it.
pub proof fn law_deletion_leaves_superseded_nodes(
    before: Map<u64, Seq<u8>>,
    after: Map<u64, Seq<u8>>,
    root: u64,
    key: BafsKey,
    generation: u64,
    new_root: u64,
    start: int,
    end: int,
)
    requires
        growth::deletion_written(before, after, root, key, generation, new_root, start, end),
        unshared(before, root, model::root_span().levels),
        lies_below(before, root, model::root_span().levels, start),
        model::agree(before, after, 0, start),
    ensures
        superseded_left(before, after, root, key, new_root, start, end),
{
    lemma_path_made_of(
        before,
        after,
        root,
        model::root_span(),
        key,
        None,
        generation,
        new_root,
        None,
        start,
        end,
        model::root_span().levels,
    );
    lemma_superseded_left(before, after, root, key, new_root, start, end);
}

} // verus!
