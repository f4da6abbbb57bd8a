//! How high a tree grows. A node that was made by a split has at least 45 children,
//! so the levels that a tree gains are few, however many items it gains.

use vstd::prelude::*;
use super::growth;
use super::key::BafsKey;
use super::model;
use super::model::Span;
use super::node;
use super::node::{BafsInternalItem, NodeModel};
use super::store;
use super::tree;
use super::tree::SplitResult;

verus! {

/// The nodes of a subtree from its top, of the level `level`, down to the level
/// above `base` have at least 45 children each, one level below them. The nodes down
/// to the level `base` lie below `bound`.
pub open spec fn tall(
    blocks: Map<u64, Seq<u8>>,
    address: u64,
    level: nat,
    base: nat,
    bound: int,
) -> bool
    decreases level,
{
    &&& address < bound
    &&& match store::node_at(blocks, address) {
        Err(_) => false,
        Ok(top) => top.level == level && (level > base ==> top.internal_items.len() >= 45 && forall|
            i: int,
        |
            0 <= i < top.internal_items.len() ==> tall(
                blocks,
                (#[trigger] top.internal_items[i]).child_block,
                (level - 1) as nat,
                base,
                bound,
            )),
    }
}

/// All of the siblings are tall.
pub open spec fn all_tall(
    blocks: Map<u64, Seq<u8>>,
    items: Seq<BafsInternalItem>,
    level: nat,
    base: nat,
    bound: int,
) -> bool {
    forall|i: int|
        0 <= i < items.len() ==> tall(
            blocks,
            (#[trigger] items[i]).child_block,
            level,
            base,
            bound,
        )
}

/// The same as `tall`, but for the number of children of the top, which is at least
/// `fewest`.
pub open spec fn tall_from(
    blocks: Map<u64, Seq<u8>>,
    address: u64,
    level: nat,
    base: nat,
    bound: int,
    fewest: nat,
) -> bool {
    &&& address < bound
    &&& match store::node_at(blocks, address) {
        Err(_) => false,
        Ok(top) => top.level == level && (level > base ==> top.internal_items.len() >= fewest
            && all_tall(blocks, top.internal_items, (level - 1) as nat, base, bound)),
    }
}

/// How many nodes of the level `base` a subtree has.
pub open spec fn width(blocks: Map<u64, Seq<u8>>, address: u64, level: nat, base: nat) -> nat
    decreases level, 0nat,
{
    if level <= base {
        1
    } else {
        widths(
            blocks,
            store::node_at(blocks, address)->Ok_0.internal_items,
            (level - 1) as nat,
            base,
        )
    }
}

/// How many nodes of the level `base` some siblings have.
pub open spec fn widths(
    blocks: Map<u64, Seq<u8>>,
    items: Seq<BafsInternalItem>,
    level: nat,
    base: nat,
) -> nat
    decreases level, items.len(),
{
    if items.len() == 0 {
        0
    } else {
        widths(blocks, items.drop_last(), level, base) + width(
            blocks,
            items.last().child_block,
            level,
            base,
        )
    }
}

/// The power of 45.
pub open spec fn power(exponent: nat) -> nat
    decreases exponent,
{
    if exponent == 0 {
        1
    } else {
        45 * power((exponent - 1) as nat)
    }
}

/// How often a number can be divided by 45 until it is below 45.
pub open spec fn divisions(number: nat) -> nat
    decreases number,
{
    if number < 45 {
        0
    } else {
        1 + divisions(number / 45)
    }
}

/// At most so many levels are gained by `insertions` insertions.
pub open spec fn levels_gained(insertions: nat) -> nat {
    if insertions == 0 {
        0
    } else {
        1 + divisions((insertions + 1) / 2)
    }
}

proof fn lemma_divisions(exponent: nat, number: nat)
    requires
        power(exponent) <= number,
    ensures
        exponent <= divisions(number),
    decreases exponent,
{
    if exponent > 0 {
        lemma_power_positive((exponent - 1) as nat);
        lemma_divisions((exponent - 1) as nat, number / 45);
    }
}

proof fn lemma_power_positive(exponent: nat)
    ensures
        power(exponent) >= 1,
    decreases exponent,
{
    if exponent > 0 {
        lemma_power_positive((exponent - 1) as nat);
    }
}

proof fn lemma_divisions_monotone(less: nat, more: nat)
    requires
        less <= more,
    ensures
        divisions(less) <= divisions(more),
    decreases more,
{
    if less >= 45 {
        lemma_divisions_monotone(less / 45, more / 45);
    }
}

pub proof fn lemma_levels_gained_monotone(less: nat, more: nat)
    requires
        less <= more,
    ensures
        levels_gained(less) <= levels_gained(more),
{
    lemma_divisions_monotone((less + 1) / 2, (more + 1) / 2);
}

/// A tall subtree is wide.
proof fn lemma_tall_is_wide(
    blocks: Map<u64, Seq<u8>>,
    address: u64,
    level: nat,
    base: nat,
    bound: int,
)
    requires
        tall(blocks, address, level, base, bound),
        level >= base,
    ensures
        width(blocks, address, level, base) >= power((level - base) as nat),
    decreases level,
{
    if level > base {
        let items = store::node_at(blocks, address)->Ok_0.internal_items;
        let less = power((level - 1 - base) as nat);
        assert forall|i: int| 0 <= i < items.len() implies width(
            blocks,
            (#[trigger] items[i]).child_block,
            (level - 1) as nat,
            base,
        ) >= less by {
            lemma_tall_is_wide(blocks, items[i].child_block, (level - 1) as nat, base, bound);
        }
        lemma_widths_add_up(blocks, items, (level - 1) as nat, base, less);
        assert(items.len() * less >= 45 * less) by (nonlinear_arith)
            requires
                items.len() >= 45,
                less >= 0,
        ;
    }
}

proof fn lemma_widths_add_up(
    blocks: Map<u64, Seq<u8>>,
    items: Seq<BafsInternalItem>,
    level: nat,
    base: nat,
    least: nat,
)
    requires
        forall|i: int|
            0 <= i < items.len() ==> width(
                blocks,
                (#[trigger] items[i]).child_block,
                level,
                base,
            ) >= least,
    ensures
        widths(blocks, items, level, base) >= items.len() * least,
    decreases items.len(),
{
    if items.len() > 0 {
        let front = items.drop_last();
        assert forall|i: int| 0 <= i < front.len() implies width(
            blocks,
            (#[trigger] front[i]).child_block,
            level,
            base,
        ) >= least by {
            assert(front[i] == items[i]);
        }
        lemma_widths_add_up(blocks, front, level, base, least);
        assert(items.last() == items[items.len() - 1]);
        assert(items.len() * least == front.len() * least + least) by (nonlinear_arith)
            requires
                items.len() == front.len() + 1,
        ;
    } else {
        assert(0 * least == 0) by (nonlinear_arith);
    }
}

proof fn lemma_widths_join(
    blocks: Map<u64, Seq<u8>>,
    left: Seq<BafsInternalItem>,
    right: Seq<BafsInternalItem>,
    level: nat,
    base: nat,
)
    ensures
        widths(blocks, left + right, level, base) == widths(blocks, left, level, base) + widths(
            blocks,
            right,
            level,
            base,
        ),
    decreases right.len(),
{
    if right.len() == 0 {
        assert(left + right =~= left);
    } else {
        lemma_widths_join(blocks, left, right.drop_last(), level, base);
        assert((left + right).drop_last() =~= left + right.drop_last());
        assert((left + right).last() == right.last());
    }
}

/// A tall subtree whose nodes stay is as tall and as wide.
proof fn lemma_tall_stays(
    before: Map<u64, Seq<u8>>,
    after: Map<u64, Seq<u8>>,
    address: u64,
    level: nat,
    base: nat,
    bound: int,
    new_bound: int,
)
    requires
        tall(before, address, level, base, bound),
        model::agree(before, after, 0, bound),
        bound <= new_bound,
    ensures
        tall(after, address, level, base, new_bound),
        width(after, address, level, base) == width(before, address, level, base),
    decreases level,
{
    assert(before.contains_key(address) == after.contains_key(address));
    assert(store::node_at(before, address) == store::node_at(after, address));
    if level > base {
        let items = store::node_at(before, address)->Ok_0.internal_items;
        let below = (level - 1) as nat;
        assert forall|i: int| 0 <= i < items.len() implies tall(
            after,
            (#[trigger] items[i]).child_block,
            below,
            base,
            new_bound,
        ) && width(after, items[i].child_block, below, base) == width(
            before,
            items[i].child_block,
            below,
            base,
        ) by {
            lemma_tall_stays(
                before,
                after,
                items[i].child_block,
                below,
                base,
                bound,
                new_bound,
            );
        }
        lemma_same_widths(before, after, items, below, base);
    }
}

proof fn lemma_same_widths(
    before: Map<u64, Seq<u8>>,
    after: Map<u64, Seq<u8>>,
    items: Seq<BafsInternalItem>,
    level: nat,
    base: nat,
)
    requires
        forall|i: int|
            0 <= i < items.len() ==> width(
                after,
                (#[trigger] items[i]).child_block,
                level,
                base,
            ) == width(before, items[i].child_block, level, base),
    ensures
        widths(after, items, level, base) == widths(before, items, level, base),
    decreases items.len(),
{
    if items.len() > 0 {
        let front = items.drop_last();
        assert forall|i: int| 0 <= i < front.len() implies width(
            after,
            (#[trigger] front[i]).child_block,
            level,
            base,
        ) == width(before, front[i].child_block, level, base) by {
            assert(front[i] == items[i]);
        }
        lemma_same_widths(before, after, front, level, base);
        assert(items.last() == items[items.len() - 1]);
    }
}

/// Tall siblings whose nodes stay are as tall and as wide.
proof fn lemma_siblings_stay(
    before: Map<u64, Seq<u8>>,
    after: Map<u64, Seq<u8>>,
    items: Seq<BafsInternalItem>,
    level: nat,
    base: nat,
    bound: int,
    new_bound: int,
)
    requires
        all_tall(before, items, level, base, bound),
        model::agree(before, after, 0, bound),
        bound <= new_bound,
    ensures
        all_tall(after, items, level, base, new_bound),
        widths(after, items, level, base) == widths(before, items, level, base),
{
    assert forall|i: int| 0 <= i < items.len() implies tall(
        after,
        (#[trigger] items[i]).child_block,
        level,
        base,
        new_bound,
    ) && width(after, items[i].child_block, level, base) == width(
        before,
        items[i].child_block,
        level,
        base,
    ) by {
        lemma_tall_stays(
            before,
            after,
            items[i].child_block,
            level,
            base,
            bound,
            new_bound,
        );
    }
    lemma_same_widths(before, after, items, level, base);
}

/// The children of a node, once one of them was replaced by one or two.
proof fn lemma_children_stay_tall(
    before: Map<u64, Seq<u8>>,
    after: Map<u64, Seq<u8>>,
    items: Seq<BafsInternalItem>,
    index: int,
    parts: Seq<BafsInternalItem>,
    level: nat,
    base: nat,
    start: int,
    middle: int,
    more: nat,
)
    requires
        0 <= index < items.len(),
        all_tall(before, items, level, base, start),
        model::agree(before, after, 0, start),
        start <= middle,
        all_tall(after, parts, level, base, middle),
        widths(after, parts, level, base) <= width(
            before,
            items[index].child_block,
            level,
            base,
        ) + more,
    ensures
        all_tall(after, model::splice(items, index, parts), level, base, middle),
        widths(after, model::splice(items, index, parts), level, base) <= widths(
            before,
            items,
            level,
            base,
        ) + more,
{
    let front = items.take(index);
    let child = seq![items[index]];
    let rest = items.skip(index + 1);
    assert forall|i: int| 0 <= i < front.len() implies tall(
        before,
        (#[trigger] front[i]).child_block,
        level,
        base,
        start,
    ) by {
        assert(front[i] == items[i]);
    }
    assert forall|i: int| 0 <= i < rest.len() implies tall(
        before,
        (#[trigger] rest[i]).child_block,
        level,
        base,
        start,
    ) by {
        assert(rest[i] == items[index + 1 + i]);
    }
    lemma_siblings_stay(before, after, front, level, base, start, middle);
    lemma_siblings_stay(before, after, rest, level, base, start, middle);
    assert(items =~= front + child + rest);
    lemma_widths_join(before, front + child, rest, level, base);
    lemma_widths_join(before, front, child, level, base);
    assert(child.drop_last() =~= Seq::empty());
    assert(widths(before, child, level, base) == width(
        before,
        items[index].child_block,
        level,
        base,
    )) by {
        reveal_with_fuel(widths, 2);
    }
    lemma_widths_join(after, front + parts, rest, level, base);
    lemma_widths_join(after, front, parts, level, base);
    let all = model::splice(items, index, parts);
    assert forall|i: int| 0 <= i < all.len() implies tall(
        after,
        (#[trigger] all[i]).child_block,
        level,
        base,
        middle,
    ) by {
        if i < index {
            assert(all[i] == front[i]);
        } else if i < index + parts.len() {
            assert(all[i] == parts[i - index]);
        } else {
            assert(all[i] == rest[i - index - parts.len()]);
        }
    }
}

/// The parts that took the place of a subtree are tall, and together at most by one
/// wider.
pub open spec fn parts_tall(
    before: Map<u64, Seq<u8>>,
    after: Map<u64, Seq<u8>>,
    address: u64,
    left: u64,
    split: Option<SplitResult>,
    level: nat,
    base: nat,
    end: int,
    fewest: nat,
    more: nat,
) -> bool {
    match split {
        None => {
            &&& tall_from(after, left, level, base, end, fewest)
            &&& width(after, left, level, base) <= width(before, address, level, base) + more
        },
        Some(right) => {
            &&& tall(after, left, level, base, end)
            &&& tall(after, right.child_block, level, base, end)
            &&& width(after, left, level, base) + width(after, right.child_block, level, base)
                <= width(before, address, level, base) + more
        },
    }
}

/// The items of a node that was written again, in one piece or in two.
#[verifier::spinoff_prover]
#[verifier::rlimit(40)]
proof fn lemma_parent_tall(
    before: Map<u64, Seq<u8>>,
    after: Map<u64, Seq<u8>>,
    address: u64,
    parent: NodeModel,
    items: Seq<BafsInternalItem>,
    whole: bool,
    left: u64,
    split: Option<SplitResult>,
    base: nat,
    fewest: nat,
    more: nat,
    middle: int,
    end: int,
)
    requires
        if whole {
            &&& split is None
            &&& left == middle
            &&& end == middle + 1
            &&& growth::holds_internal(after, left, parent.level, items)
        } else {
            growth::internal_written(after, parent.level, items, left, split, middle, end)
        },
        store::node_at(before, address) is Ok,
        store::node_at(before, address)->Ok_0 == parent,
        parent.level > base,
        parent.internal_items.len() >= fewest,
        items.len() >= parent.internal_items.len(),
        all_tall(after, items, (parent.level - 1) as nat, base, middle),
        widths(after, items, (parent.level - 1) as nat, base) <= widths(
            before,
            parent.internal_items,
            (parent.level - 1) as nat,
            base,
        ) + more,
    ensures
        parts_tall(
            before,
            after,
            address,
            left,
            split,
            parent.level as nat,
            base,
            end,
            fewest,
            more,
        ),
{
    let level = parent.level as nat;
    let below = (level - 1) as nat;
    lemma_siblings_stay(after, after, items, below, base, middle, end);
    if split is Some {
        let cut = items.len() as int / 2;
        let first = items.take(cut);
        let second = items.skip(cut);
        assert(items =~= first + second);
        lemma_widths_join(after, first, second, below, base);
        assert forall|i: int| 0 <= i < first.len() implies tall(
            after,
            (#[trigger] first[i]).child_block,
            below,
            base,
            end,
        ) by {
            assert(first[i] == items[i]);
        }
        assert forall|i: int| 0 <= i < second.len() implies tall(
            after,
            (#[trigger] second[i]).child_block,
            below,
            base,
            end,
        ) by {
            assert(second[i] == items[cut + i]);
        }
    }
}

/// What the nodes are like that were written on the way to a key.
#[verifier::spinoff_prover]
#[verifier::rlimit(60)]
proof fn lemma_path_tall(
    before: Map<u64, Seq<u8>>,
    after: Map<u64, Seq<u8>>,
    address: u64,
    span: Span,
    key: BafsKey,
    change: Option<Seq<u8>>,
    generation: u64,
    left: u64,
    split: Option<SplitResult>,
    start: int,
    end: int,
    level: nat,
    base: nat,
    fewest: nat,
)
    requires
        growth::path_written(
            before,
            after,
            address,
            span,
            key,
            change,
            generation,
            left,
            split,
            start,
            end,
        ),
        model::agree(before, after, 0, start),
        tall_from(before, address, level, base, start, fewest),
        fewest <= 45,
        base <= level,
        change is None ==> split is None,
    ensures
        start < end,
        parts_tall(
            before,
            after,
            address,
            left,
            split,
            level,
            base,
            end,
            fewest,
            if change is Some {
                1
            } else {
                0
            },
        ),
    decreases span.levels,
{
    let rank = key.rank();
    let more: nat = if change is Some {
        1
    } else {
        0
    };
    let parent = model::checked_node(before, address, span)->Ok_0;
    growth::lemma_path_written_kept(
        before,
        after,
        after,
        address,
        span,
        key,
        change,
        generation,
        left,
        split,
        start,
        end,
    );
    if level == base {
        if parent.level > 0 {
            growth::lemma_parent_of_path(
                before,
                after,
                address,
                span,
                key,
                change,
                generation,
                left,
                split,
                start,
                end,
            );
        }
    } else {
        let index = model::child_index(parent.internal_items, rank);
        model::lemma_child_index(parent.internal_items, rank);
        let child = parent.internal_items[index].child_block;
        let child_span = model::child_span(
            parent.internal_items,
            index,
            span.upper,
            parent.level as nat,
        );
        let below = (level - 1) as nat;
        let (new_child, new_split, middle) = growth::lemma_parent_of_path(
            before,
            after,
            address,
            span,
            key,
            change,
            generation,
            left,
            split,
            start,
            end,
        );
        assert(tall(before, child, below, base, start));
        lemma_path_tall(
            before,
            after,
            child,
            child_span,
            key,
            change,
            generation,
            new_child,
            new_split,
            start,
            middle,
            below,
            base,
            45,
        );
        let parts = tree::parts_of(
            tree::lesser(key, parent.internal_items[index].key),
            new_child,
            new_split,
            generation,
        );
        assert(all_tall(after, parts, below, base, middle));
        assert(widths(after, parts, below, base) <= width(before, child, below, base) + more) by {
            reveal_with_fuel(widths, 3);
            if new_split is Some {
                assert(parts.drop_last() =~= seq![parts[0]]);
            }
            assert(seq![parts[0]].drop_last() =~= Seq::<BafsInternalItem>::empty());
            assert(parts[0].child_block == new_child);
            if new_split is None {
                assert(parts =~= seq![parts[0]]);
            }
        }
        lemma_children_stay_tall(
            before,
            after,
            parent.internal_items,
            index,
            parts,
            below,
            base,
            start,
            middle,
            more,
        );
        lemma_parent_tall(
            before,
            after,
            address,
            parent,
            model::splice(parent.internal_items, index, parts),
            change is None,
            left,
            split,
            base,
            fewest,
            more,
            middle,
            end,
        );
    }
}

/// The tree has gained at most `insertions` nodes of the level `base` since it had
/// that level.
#[verifier::opaque]
pub open spec fn grown_from(
    blocks: Map<u64, Seq<u8>>,
    root: u64,
    base: nat,
    bound: int,
    insertions: nat,
) -> bool {
    let level = store::node_at(blocks, root)->Ok_0.level as nat;
    &&& store::node_at(blocks, root) is Ok
    &&& base <= level
    &&& tall_from(blocks, root, level, base, bound, 2)
    &&& width(blocks, root, level, base) <= 1 + insertions
}

/// A tree that has the level `base` has gained nothing yet.
pub proof fn lemma_grown_from_itself(blocks: Map<u64, Seq<u8>>, root: u64, bound: int)
    requires
        store::node_at(blocks, root) is Ok,
        root < bound,
    ensures
        grown_from(blocks, root, store::node_at(blocks, root)->Ok_0.level as nat, bound, 0),
{
    reveal(grown_from);
}

/// A tree that has gained few nodes has gained few levels.
pub proof fn lemma_grown_level(
    blocks: Map<u64, Seq<u8>>,
    root: u64,
    base: nat,
    bound: int,
    insertions: nat,
)
    requires
        grown_from(blocks, root, base, bound, insertions),
    ensures
        store::node_at(blocks, root) is Ok,
        store::node_at(blocks, root)->Ok_0.level <= base + levels_gained(insertions),
{
    reveal(grown_from);
    let level = store::node_at(blocks, root)->Ok_0.level as nat;
    if level > base {
        let items = store::node_at(blocks, root)->Ok_0.internal_items;
        let below = (level - 1) as nat;
        let less = power((below - base) as nat);
        assert forall|i: int| 0 <= i < items.len() implies width(
            blocks,
            (#[trigger] items[i]).child_block,
            below,
            base,
        ) >= less by {
            lemma_tall_is_wide(blocks, items[i].child_block, below, base, bound);
        }
        lemma_widths_add_up(blocks, items, below, base, less);
        assert(items.len() * less >= 2 * less) by (nonlinear_arith)
            requires
                items.len() >= 2,
                less >= 0,
        ;
        lemma_power_positive((below - base) as nat);
        lemma_divisions((below - base) as nat, (insertions + 1) / 2);
    }
}

/// A tree keeps what it has gained while its nodes stay.
pub proof fn lemma_grown_stays(
    before: Map<u64, Seq<u8>>,
    after: Map<u64, Seq<u8>>,
    root: u64,
    base: nat,
    bound: int,
    new_bound: int,
    insertions: nat,
)
    requires
        grown_from(before, root, base, bound, insertions),
        model::agree(before, after, 0, bound),
        bound <= new_bound,
    ensures
        grown_from(after, root, base, new_bound, insertions),
{
    reveal(grown_from);
    assert(before.contains_key(root) == after.contains_key(root));
    let top = store::node_at(before, root)->Ok_0;
    if top.level > base {
        lemma_siblings_stay(
            before,
            after,
            top.internal_items,
            (top.level - 1) as nat,
            base,
            bound,
            new_bound,
        );
    }
}

/// A tree took the place of another one and gained at most `more` nodes of any
/// level.
#[verifier::opaque]
pub open spec fn gains(
    before: Map<u64, Seq<u8>>,
    root: u64,
    after: Map<u64, Seq<u8>>,
    new_root: u64,
    old_next: int,
    new_next: int,
    more: nat,
) -> bool {
    forall|base: nat, insertions: nat| #[trigger]
        grown_from(before, root, base, old_next, insertions) ==> grown_from(
            after,
            new_root,
            base,
            new_next,
            insertions + more,
        )
}

/// What a change makes of a tree that has grown from some level.
pub proof fn lemma_gains(
    before: Map<u64, Seq<u8>>,
    root: u64,
    after: Map<u64, Seq<u8>>,
    new_root: u64,
    old_next: int,
    new_next: int,
    more: nat,
    base: nat,
    insertions: nat,
)
    requires
        gains(before, root, after, new_root, old_next, new_next, more),
        grown_from(before, root, base, old_next, insertions),
    ensures
        grown_from(after, new_root, base, new_next, insertions + more),
{
    reveal(gains);
}

pub proof fn lemma_gains_nothing(blocks: Map<u64, Seq<u8>>, root: u64, next: int)
    ensures
        gains(blocks, root, blocks, root, next, next, 0),
{
    reveal(gains);
}

/// A tree whose nodes stay gains nothing.
pub proof fn lemma_gains_stay(
    before: Map<u64, Seq<u8>>,
    after: Map<u64, Seq<u8>>,
    root: u64,
    bound: int,
    new_bound: int,
)
    requires
        model::agree(before, after, 0, bound),
        bound <= new_bound,
    ensures
        gains(before, root, after, root, bound, new_bound, 0),
{
    reveal(gains);
    assert forall|base: nat, insertions: nat| #[trigger]
        grown_from(before, root, base, bound, insertions) implies grown_from(
        after,
        root,
        base,
        new_bound,
        insertions + 0,
    ) by {
        lemma_grown_stays(before, after, root, base, bound, new_bound, insertions);
    }
}

/// A tree that gains few nodes gains no more than more of them.
pub proof fn lemma_gains_more(
    before: Map<u64, Seq<u8>>,
    root: u64,
    after: Map<u64, Seq<u8>>,
    new_root: u64,
    old_next: int,
    new_next: int,
    fewer: nat,
    more: nat,
)
    requires
        gains(before, root, after, new_root, old_next, new_next, fewer),
        fewer <= more,
    ensures
        gains(before, root, after, new_root, old_next, new_next, more),
{
    reveal(gains);
    reveal(grown_from);
    assert forall|base: nat, insertions: nat| #[trigger]
        grown_from(before, root, base, old_next, insertions) implies grown_from(
        after,
        new_root,
        base,
        new_next,
        insertions + more,
    ) by {
        assert(grown_from(after, new_root, base, new_next, insertions + fewer));
    }
}

pub proof fn lemma_gains_join(
    first: Map<u64, Seq<u8>>,
    first_root: u64,
    second: Map<u64, Seq<u8>>,
    second_root: u64,
    third: Map<u64, Seq<u8>>,
    third_root: u64,
    first_next: int,
    second_next: int,
    third_next: int,
    more: nat,
    even_more: nat,
)
    requires
        gains(first, first_root, second, second_root, first_next, second_next, more),
        gains(second, second_root, third, third_root, second_next, third_next, even_more),
    ensures
        gains(first, first_root, third, third_root, first_next, third_next, more + even_more),
{
    reveal(gains);
    assert forall|base: nat, insertions: nat| #[trigger]
        grown_from(first, first_root, base, first_next, insertions) implies grown_from(
        third,
        third_root,
        base,
        third_next,
        insertions + (more + even_more),
    ) by {
        assert(grown_from(second, second_root, base, second_next, insertions + more));
        assert(grown_from(third, third_root, base, third_next, insertions + more + even_more));
    }
}

/// An insertion gains at most one node of any level.
#[verifier::spinoff_prover]
#[verifier::rlimit(40)]
pub proof fn lemma_insertion_gains(
    before: Map<u64, Seq<u8>>,
    after: Map<u64, Seq<u8>>,
    root: u64,
    key: BafsKey,
    value: Seq<u8>,
    generation: u64,
    new_root: u64,
    start: int,
    end: int,
)
    requires
        growth::insertion_written(
            before,
            after,
            root,
            key,
            value,
            generation,
            new_root,
            start,
            end,
        ),
        tree::root_level(before, root) + 1 < model::level_limit(),
        model::agree(before, after, 0, start),
    ensures
        gains(before, root, after, new_root, start, end, 1),
{
    reveal(gains);
    reveal(grown_from);
    let span = model::root_span();
    let (left, split, middle) = choose|left: u64, split: Option<SplitResult>, middle: int| #[trigger]
        growth::root_written(after, left, split, generation, new_root, middle, end)
            && growth::path_written(
            before,
            after,
            root,
            span,
            key,
            Some(value),
            generation,
            left,
            split,
            start,
            middle,
        );
    let level = store::node_at(before, root)->Ok_0.level as nat;
    assert forall|base: nat, insertions: nat| #[trigger]
        grown_from(before, root, base, start, insertions) implies grown_from(
        after,
        new_root,
        base,
        end,
        insertions + 1,
    ) by {
        lemma_path_tall(
            before,
            after,
            root,
            span,
            key,
            Some(value),
            generation,
            left,
            split,
            start,
            middle,
            level,
            base,
            2,
        );
        if let Some(right) = split {
            let items = store::node_at(after, new_root)->Ok_0.internal_items;
            assert(items.len() == 2);
            assert(items[0].child_block == left && items[1].child_block == right.child_block);
            lemma_tall_stays(after, after, left, level, base, middle, end);
            lemma_tall_stays(after, after, right.child_block, level, base, middle, end);
            assert(all_tall(after, items, level, base, end));
            assert(widths(after, items, level, base) == width(after, left, level, base) + width(
                after,
                right.child_block,
                level,
                base,
            )) by {
                reveal_with_fuel(widths, 3);
                assert(items.drop_last() =~= seq![items[0]]);
                assert(seq![items[0]].drop_last() =~= Seq::<BafsInternalItem>::empty());
            }
        }
    }
}

/// A deletion gains no node.
pub proof fn lemma_deletion_gains(
    before: Map<u64, Seq<u8>>,
    after: Map<u64, Seq<u8>>,
    root: u64,
    key: BafsKey,
    generation: u64,
    new_root: u64,
    start: int,
    end: int,
)
    requires
        growth::deletion_written(before, after, root, key, generation, new_root, start, end),
        model::agree(before, after, 0, start),
    ensures
        gains(before, root, after, new_root, start, end, 0),
{
    reveal(gains);
    reveal(grown_from);
    let level = store::node_at(before, root)->Ok_0.level as nat;
    assert forall|base: nat, insertions: nat| #[trigger]
        grown_from(before, root, base, start, insertions) implies grown_from(
        after,
        new_root,
        base,
        end,
        insertions + 0,
    ) by {
        lemma_path_tall(
            before,
            after,
            root,
            model::root_span(),
            key,
            None,
            generation,
            new_root,
            None,
            start,
            end,
            level,
            base,
            2,
        );
    }
}

} // verus!
