//! What insertions and deletions do to a tree, in terms of lookups.

use vstd::prelude::*;
use crate::error::BafsError;
use super::key::BafsKey;
use super::model;
use super::model::Span;
use super::store;
use super::tree;

verus! {

/// An insertion puts one record into a tree and keeps all others; the old root still
/// leads to what it did. On a device that carries out every request, it succeeds with
/// every value of up to 2011 bytes where the tree is not too high, and with none of more
/// than 4047; where it fails, nothing changes.
pub proof fn law_insertion_puts_one_record(
    disk: Seq<u8>,
    old_cache: Map<u64, Vec<u8>>,
    new_cache: Map<u64, Vec<u8>>,
    root: u64,
    key: BafsKey,
    value: Seq<u8>,
    old_next: u64,
    new_next: u64,
    old_freed: Seq<u64>,
    new_freed: Seq<u64>,
    result: Result<u64, BafsError>,
    base: int,
    target: BafsKey,
)
    requires
        tree::tree_ready(store::visible_blocks(disk, old_cache), root, base, old_next as int),
        tree::insertion_outcome(
            disk,
            old_cache,
            new_cache,
            true,
            root,
            key,
            value,
            old_next,
            new_next,
            old_freed,
            new_freed,
            result,
        ),
    ensures
        ({
            let before = store::visible_blocks(disk, old_cache);
            let after = store::visible_blocks(disk, new_cache);
            &&& value.len() <= 2011 && tree::root_level(before, root) < 254 ==> result is Ok
            &&& value.len() > 4047 ==> result is Err
            &&& result is Err ==> new_cache == old_cache && new_next == old_next && new_freed
                == old_freed
            &&& result matches Ok(new_root) ==> {
                &&& tree::tree_ready(after, new_root, base, new_next as int)
                &&& model::tree_get(after, new_root, key) == Ok::<Option<Seq<u8>>, BafsError>(
                    Some(value),
                )
                &&& target != key ==> model::tree_get(after, new_root, target)
                    == model::tree_get(before, root, target)
                &&& model::tree_get(after, root, target) == model::tree_get(before, root, target)
            }
        }),
{
    let before = store::visible_blocks(disk, old_cache);
    let after = store::visible_blocks(disk, new_cache);
    if value.len() <= 2011 && tree::root_level(before, root) < 254 {
        tree::lemma_insert_succeeds(before, root, key, value);
    }
    if result is Ok {
        let new_root = result->Ok_0;
        tree::lemma_inserted_value_fits(before, root, key, value);
        tree::lemma_tree_stays_ready(
            disk,
            old_cache,
            new_cache,
            root,
            new_root,
            key,
            Some(value),
            base,
            old_next as int,
            new_next as int,
        );
        lemma_map_answers(before, after, root, new_root, target);
        lemma_map_answers(before, after, root, new_root, key);
        assert(model::tree_map(after, new_root).contains_key(key));
        tree::lemma_tree_untouched(
            disk,
            old_cache,
            new_cache,
            root,
            base,
            old_next as int,
            new_next as int,
        );
        lemma_map_answers(before, after, root, root, target);
    }
}

/// Trees give the same for a key where their maps do.
proof fn lemma_map_answers(
    before: Map<u64, Seq<u8>>,
    after: Map<u64, Seq<u8>>,
    root: u64,
    new_root: u64,
    target: BafsKey,
)
    requires
        model::tree_sound(before, root),
        model::tree_sound(after, new_root),
    ensures
        model::tree_map(before, root).contains_key(target) == model::tree_map(
            after,
            new_root,
        ).contains_key(target) && (model::tree_map(before, root).contains_key(target)
            ==> model::tree_map(before, root)[target] == model::tree_map(after, new_root)[target])
            ==> model::tree_get(after, new_root, target) == model::tree_get(before, root, target),
        model::tree_map(after, new_root).contains_key(target) ==> model::tree_get(
            after,
            new_root,
            target,
        ) == Ok::<Option<Seq<u8>>, BafsError>(Some(model::tree_map(after, new_root)[target])),
        !model::tree_map(after, new_root).contains_key(target) ==> model::tree_get(
            after,
            new_root,
            target,
        ) == Ok::<Option<Seq<u8>>, BafsError>(None),
{
    assert(model::tree_get(before, root, target) is Ok);
    assert(model::tree_get(after, new_root, target) is Ok);
}

/// A deletion removes one record from a tree and keeps all others; the old root still
/// leads to what it did. On a device that carries out every request, it fails only where
/// the record is not there, and then nothing changes.
pub proof fn law_deletion_removes_one_record(
    disk: Seq<u8>,
    old_cache: Map<u64, Vec<u8>>,
    new_cache: Map<u64, Vec<u8>>,
    root: u64,
    key: BafsKey,
    old_next: u64,
    new_next: u64,
    old_freed: Seq<u64>,
    new_freed: Seq<u64>,
    result: Result<u64, BafsError>,
    base: int,
    target: BafsKey,
)
    requires
        tree::tree_ready(store::visible_blocks(disk, old_cache), root, base, old_next as int),
        tree::deletion_outcome(
            disk,
            old_cache,
            new_cache,
            true,
            root,
            key,
            old_next,
            new_next,
            old_freed,
            new_freed,
            result,
        ),
    ensures
        ({
            let before = store::visible_blocks(disk, old_cache);
            let after = store::visible_blocks(disk, new_cache);
            if model::tree_get(before, root, key) == Ok::<Option<Seq<u8>>, BafsError>(None) {
                &&& result == Err::<u64, BafsError>(BafsError::NotFound)
                &&& new_cache == old_cache
                &&& new_next == old_next
                &&& new_freed == old_freed
            } else {
                &&& result is Ok
                &&& tree::tree_ready(after, result->Ok_0, base, new_next as int)
                &&& model::tree_get(after, result->Ok_0, key) == Ok::<
                    Option<Seq<u8>>,
                    BafsError,
                >(None)
                &&& target != key ==> model::tree_get(after, result->Ok_0, target)
                    == model::tree_get(before, root, target)
                &&& model::tree_get(after, root, target) == model::tree_get(before, root, target)
            }
        }),
{
    let before = store::visible_blocks(disk, old_cache);
    let after = store::visible_blocks(disk, new_cache);
    assert(model::tree_get(before, root, key) is Ok);
    if result is Ok {
        let new_root = result->Ok_0;
        tree::lemma_tree_stays_ready(
            disk,
            old_cache,
            new_cache,
            root,
            new_root,
            key,
            None,
            base,
            old_next as int,
            new_next as int,
        );
        lemma_map_answers(before, after, root, new_root, target);
        lemma_map_answers(before, after, root, new_root, key);
        tree::lemma_tree_untouched(
            disk,
            old_cache,
            new_cache,
            root,
            base,
            old_next as int,
            new_next as int,
        );
        lemma_map_answers(before, after, root, root, target);
    }
}

/// A path leads from a leaf to the node at `address`, each node a child of the next.
pub open spec fn is_path(blocks: Map<u64, Seq<u8>>, path: Seq<u64>, address: u64) -> bool {
    &&& path.len() > 0
    &&& path.last() == address
    &&& store::node_at(blocks, path[0]) matches Ok(leaf) && leaf.level == 0
    &&& forall|i: int| 0 < i < path.len() ==> is_parent(blocks, #[trigger] path[i], path[i - 1])
}

/// The node at `parent` has the node at `child` for a child.
pub open spec fn is_parent(blocks: Map<u64, Seq<u8>>, parent: u64, child: u64) -> bool {
    store::node_at(blocks, parent) matches Ok(node) && node.level > 0 && exists|i: int|
        0 <= i < node.internal_items.len() && (#[trigger] node.internal_items[i]).child_block
            == child
}

proof fn lemma_path(blocks: Map<u64, Seq<u8>>, address: u64, span: Span, rank: int)
    requires
        model::leaf_for(blocks, address, span, rank) is Ok,
    ensures
        is_path(blocks, model::path_to(blocks, address, span, rank), address),
    decreases span.levels,
{
    let top = model::checked_node(blocks, address, span)->Ok_0;
    if top.level > 0 {
        let index = model::child_index(top.internal_items, rank);
        let child = top.internal_items[index].child_block;
        let child_span = model::child_span(
            top.internal_items,
            index,
            span.upper,
            top.level as nat,
        );
        lemma_path(blocks, child, child_span, rank);
        model::lemma_child_index(top.internal_items, rank);
        let below = model::path_to(blocks, child, child_span, rank);
        let path = model::path_to(blocks, address, span, rank);
        assert(path == below.push(address));
        assert(top.internal_items[index].child_block == child);
        assert(is_parent(blocks, address, child));
        assert forall|i: int| 0 < i < path.len() implies is_parent(
            blocks,
            #[trigger] path[i],
            path[i - 1],
        ) by {
            if i < below.len() {
                assert(path[i] == below[i] && path[i - 1] == below[i - 1]);
            }
        }
    }
}

/// What a change of a record supersedes is a whole path: the leaf that is responsible
/// for the key, its parent, and so on up to the root.
pub proof fn law_superseded_nodes_are_a_path(blocks: Map<u64, Seq<u8>>, root: u64, key: BafsKey)
    requires
        model::tree_get(blocks, root, key) is Ok,
    ensures
        is_path(blocks, model::path_to(blocks, root, model::root_span(), key.rank()), root),
{
    lemma_path(blocks, root, model::root_span(), key.rank());
}

} // verus!
