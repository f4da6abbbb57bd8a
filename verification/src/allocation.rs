//! What allocating and freeing blocks does, in terms of which blocks are free.

use vstd::prelude::*;
use crate::btree::key::BafsKey;
use crate::btree::model;
use crate::btree::store;
use crate::btree::tree;
use crate::error::BafsError;
use crate::extent;

verus! {

/// A block is free by what the tree at `root` holds.
pub open spec fn free_in(blocks: Map<u64, Seq<u8>>, root: u64, address: u64) -> bool {
    extent::is_free(model::tree_map(blocks, root), address)
}

/// An allocation takes blocks in a row that were free, and no others. It fails only
/// where no free extent is long enough, and then nothing changes.
#[verifier::spinoff_prover]
#[verifier::rlimit(40)]
pub proof fn law_blocks_are_allocated(
    disk: Seq<u8>,
    old_cache: Map<u64, Vec<u8>>,
    new_cache: Map<u64, Vec<u8>>,
    root: u64,
    requested: u64,
    old_next: u64,
    new_next: u64,
    old_freed: Seq<u64>,
    new_freed: Seq<u64>,
    result: Result<(u64, u64), BafsError>,
    base: int,
)
    requires
        tree::tree_ready(store::visible_blocks(disk, old_cache), root, base, old_next as int),
        extent::free_map_ok(model::tree_map(store::visible_blocks(disk, old_cache), root)),
        tree::root_level(store::visible_blocks(disk, old_cache), root) < 254,
        requested > 0,
        extent::allocation_outcome(
            disk,
            old_cache,
            new_cache,
            true,
            root,
            requested,
            old_next,
            new_next,
            old_freed,
            new_freed,
            result,
        ),
    ensures
        ({
            let before = store::visible_blocks(disk, old_cache);
            let after = store::visible_blocks(disk, new_cache);
            let items = model::tree_map(before, root);
            match result {
                Ok((first, new_root)) => {
                    &&& tree::tree_ready(after, new_root, base, new_next as int)
                    &&& extent::free_map_ok(model::tree_map(after, new_root))
                    &&& first + requested <= u64::MAX
                    &&& forall|address: u64|
                        first <= address < first + requested ==> #[trigger] free_in(
                            before,
                            root,
                            address,
                        )
                    &&& forall|address: u64| #[trigger]
                        free_in(after, new_root, address) == (free_in(before, root, address) && !(
                        first <= address < first + requested))
                    &&& forall|key: BafsKey| #[trigger]
                        items.contains_key(key) && key.offset < first ==> extent::run_at(
                            items,
                            key,
                        ).block_count < requested
                },
                Err(error) => {
                    &&& error == BafsError::OutOfSpace
                    &&& new_cache == old_cache
                    &&& new_next == old_next
                    &&& forall|key: BafsKey| #[trigger]
                        items.contains_key(key) ==> extent::run_at(items, key).block_count
                            < requested
                },
            }
        }),
{
    let before = store::visible_blocks(disk, old_cache);
    let after = store::visible_blocks(disk, new_cache);
    let items = model::tree_map(before, root);
    extent::law_allocation_is_first_fit(before, root, requested);
    if extent::allocation_choice(before, root, requested) is Ok {
        let item = extent::allocation_choice(before, root, requested)->Ok_0;
        assert(result is Ok);
        let (first, new_root) = result->Ok_0;
        extent::law_allocation_takes_free_blocks(items, item, requested);
        assert(extent::run_at(items, item.key).block_address == item.key.offset);
        assert(first == item.key.offset);
        assert(model::tree_map(after, new_root) == extent::allocated_map(items, item, requested));
        assert forall|address: u64|
            first <= address < first + requested implies #[trigger] free_in(
            before,
            root,
            address,
        ) by {
            assert(extent::is_free(items, address));
        }
    }
}

/// Freeing blocks that were not free makes them free, and no others.
#[verifier::spinoff_prover]
#[verifier::rlimit(40)]
pub proof fn law_blocks_are_freed(
    disk: Seq<u8>,
    old_cache: Map<u64, Vec<u8>>,
    new_cache: Map<u64, Vec<u8>>,
    root: u64,
    first: u64,
    count: u64,
    old_next: u64,
    new_next: u64,
    old_freed: Seq<u64>,
    new_freed: Seq<u64>,
    result: Result<u64, BafsError>,
    base: int,
)
    requires
        tree::tree_ready(store::visible_blocks(disk, old_cache), root, base, old_next as int),
        extent::free_map_ok(model::tree_map(store::visible_blocks(disk, old_cache), root)),
        tree::root_level(store::visible_blocks(disk, old_cache), root) < 254,
        count > 0,
        first + count <= u64::MAX,
        forall|address: u64|
            first <= address < first + count ==> !#[trigger] free_in(
                store::visible_blocks(disk, old_cache),
                root,
                address,
            ),
        extent::freeing_outcome(
            disk,
            old_cache,
            new_cache,
            true,
            root,
            first,
            count,
            old_next,
            new_next,
            old_freed,
            new_freed,
            result,
        ),
    ensures
        result is Ok,
        ({
            let before = store::visible_blocks(disk, old_cache);
            let after = store::visible_blocks(disk, new_cache);
            let new_root = result->Ok_0;
            &&& tree::tree_ready(after, new_root, base, new_next as int)
            &&& extent::free_map_ok(model::tree_map(after, new_root))
            &&& forall|address: u64| #[trigger]
                free_in(after, new_root, address) == (free_in(before, root, address) || first
                    <= address < first + count)
            &&& extent::runs_apart(model::tree_map(before, root)) ==> extent::runs_apart(
                model::tree_map(after, new_root),
            )
        }),
{
    let before = store::visible_blocks(disk, old_cache);
    let items = model::tree_map(before, root);
    assert forall|address: u64| first <= address < first + count implies !#[trigger] extent::is_free(
        items,
        address,
    ) by {
        assert(!free_in(before, root, address));
    }
    extent::law_freeing_returns_blocks(items, first, count);
    if extent::runs_apart(items) {
        extent::law_freeing_joins_runs(items, first, count);
    }
}

} // verus!
