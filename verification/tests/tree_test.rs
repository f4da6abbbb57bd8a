//! Trees of records.

use std::collections::BTreeMap;

use bafs::block_device::MemoryDisk;
use bafs::btree::{
    create_empty_tree, delete_from_tree, deserialise_node_from_block, insert_into_tree,
    iterate_tree_range, lookup_in_tree, read_tree_node, serialise_node_to_block, BafsInternalItem,
    BafsKey, BafsLeafItem, BafsTreeNode,
};
use bafs::btree::tree::tree_level;
use bafs::error::BafsError;

/// A tree in memory, from block 10 on.
struct Tree {
    disk: MemoryDisk,
    cache: BTreeMap<u64, Vec<u8>>,
    root: u64,
    next: u64,
    freed: Vec<u64>,
}

impl Tree {
    fn new() -> Self {
        let mut cache = BTreeMap::new();
        create_empty_tree(&mut cache, 10, 1);
        Tree { disk: MemoryDisk::new(8), cache, root: 10, next: 11, freed: Vec::new() }
    }

    fn insert(&mut self, key: BafsKey, value: &[u8]) -> Result<(), BafsError> {
        self.root = insert_into_tree(
            &self.disk,
            &mut self.cache,
            self.root,
            key,
            value.to_vec(),
            1,
            &mut self.next,
            &mut self.freed,
        )?;
        Ok(())
    }

    fn delete(&mut self, key: BafsKey) -> Result<(), BafsError> {
        self.root = delete_from_tree(
            &self.disk,
            &mut self.cache,
            self.root,
            key,
            1,
            &mut self.next,
            &mut self.freed,
        )?;
        Ok(())
    }

    fn get(&self, key: BafsKey) -> Option<Vec<u8>> {
        lookup_in_tree(&self.disk, &self.cache, self.root, key).unwrap()
    }
}

fn key(offset: u64) -> BafsKey {
    BafsKey::new(7, 3, offset)
}

/// The numbers below `count` in a scattered order.
fn scattered(count: u64) -> Vec<u64> {
    (0..count).map(|index| (index * 7919) % count).collect()
}

#[test]
fn keys_are_ordered_by_owner_kind_and_position() {
    let ordered = [
        BafsKey::new(1, 1, 9),
        BafsKey::new(1, 2, 0),
        BafsKey::new(1, 2, u64::MAX),
        BafsKey::new(1, 3, 0),
        BafsKey::new(2, 0, 0),
        BafsKey::new(u64::MAX, 255, u64::MAX),
    ];
    for left in 0..ordered.len() {
        for right in 0..ordered.len() {
            assert_eq!(ordered[left].precedes(&ordered[right]), left < right);
            assert_eq!(ordered[left].same(&ordered[right]), left == right);
        }
    }
}

#[test]
fn inserted_values_are_found_and_replaced() {
    let mut tree = Tree::new();
    assert_eq!(tree.get(key(5)), None);
    tree.insert(key(5), b"five").unwrap();
    tree.insert(key(3), b"three").unwrap();
    assert_eq!(tree.get(key(5)), Some(b"five".to_vec()));
    assert_eq!(tree.get(key(3)), Some(b"three".to_vec()));
    assert_eq!(tree.get(key(4)), None);
    tree.insert(key(5), b"FIVE").unwrap();
    assert_eq!(tree.get(key(5)), Some(b"FIVE".to_vec()));
}

#[test]
fn no_node_is_overwritten() {
    let mut tree = Tree::new();
    for offset in scattered(400) {
        let before = tree.cache.clone();
        let next = tree.next;
        tree.insert(key(offset), &[offset as u8; 40]).unwrap();
        for (address, block) in &before {
            assert_eq!(tree.cache.get(address), Some(block));
        }
        assert!(tree.cache.keys().all(|address| *address < tree.next));
        assert!(tree.root >= next);
    }
}

#[test]
fn old_root_still_shows_the_old_tree() {
    let mut tree = Tree::new();
    tree.insert(key(1), b"old").unwrap();
    let old_root = tree.root;
    tree.insert(key(1), b"new").unwrap();
    let old = lookup_in_tree(&tree.disk, &tree.cache, old_root, key(1)).unwrap();
    assert_eq!(old, Some(b"old".to_vec()));
    assert_eq!(tree.get(key(1)), Some(b"new".to_vec()));
    assert_eq!(tree.freed.last(), Some(&old_root));
}

#[test]
fn large_trees_keep_every_record() {
    let mut tree = Tree::new();
    let count = 6000u64;
    for offset in scattered(count) {
        tree.insert(key(offset), &offset.to_le_bytes()).unwrap();
    }
    assert!(tree_level(&tree.disk, &tree.cache, tree.root).unwrap() >= 1);
    for offset in 0..count {
        assert_eq!(tree.get(key(offset)), Some(offset.to_le_bytes().to_vec()));
    }
    let found =
        iterate_tree_range(&tree.disk, &tree.cache, tree.root, key(100), key(2999)).unwrap();
    assert_eq!(found.len(), 2900);
    for (index, item) in found.iter().enumerate() {
        assert!(item.key.same(&key(100 + index as u64)));
        assert_eq!(item.value, (100 + index as u64).to_le_bytes().to_vec());
    }
}

#[test]
fn keys_below_all_others_are_found() {
    let mut tree = Tree::new();
    for offset in (0..3000u64).rev() {
        tree.insert(key(offset), &[1u8; 30]).unwrap();
    }
    for offset in 0..3000u64 {
        assert!(tree.get(key(offset)).is_some());
    }
}

#[test]
fn deleted_records_are_gone() {
    let mut tree = Tree::new();
    for offset in scattered(1000) {
        tree.insert(key(offset), &offset.to_le_bytes()).unwrap();
    }
    for offset in (0..1000u64).filter(|offset| offset % 3 != 0) {
        tree.delete(key(offset)).unwrap();
    }
    for offset in 0..1000u64 {
        assert_eq!(tree.get(key(offset)).is_some(), offset % 3 == 0);
    }
    assert_eq!(tree.delete(key(1)), Err(BafsError::NotFound));
    let all = iterate_tree_range(
        &tree.disk,
        &tree.cache,
        tree.root,
        BafsKey::new(0, 0, 0),
        BafsKey::new(u64::MAX, 255, u64::MAX),
    )
    .unwrap();
    assert_eq!(all.len(), 334);
}

#[test]
fn greatest_values_fit_and_greater_ones_may_not() {
    let mut tree = Tree::new();
    for offset in 0..20u64 {
        tree.insert(key(offset), &[offset as u8; 2011]).unwrap();
    }
    for offset in 0..20u64 {
        assert_eq!(tree.get(key(offset)), Some(vec![offset as u8; 2011]));
    }
    assert_eq!(tree.insert(key(50), &[0u8; 5000]), Err(BafsError::InvalidArgument));
    assert_eq!(tree.get(key(50)), None);
}

#[test]
fn empty_tree_answers_without_the_device() {
    let mut cache = BTreeMap::new();
    create_empty_tree(&mut cache, 10, 1);
    let disk = MemoryDisk::new(0);
    assert_eq!(lookup_in_tree(&disk, &cache, 10, key(0)), Ok(None));
    let all = iterate_tree_range(
        &disk,
        &cache,
        10,
        BafsKey::new(0, 0, 0),
        BafsKey::new(u64::MAX, 255, u64::MAX),
    )
    .unwrap();
    assert_eq!(all.len(), 0);
    assert_eq!(lookup_in_tree(&disk, &cache, 11, key(0)), Err(BafsError::InputOutputError));
}

#[test]
fn first_item_takes_one_block() {
    let mut cache = BTreeMap::new();
    create_empty_tree(&mut cache, 10, 1);
    let disk = MemoryDisk::new(0);
    let mut next = 11u64;
    let mut freed = Vec::new();
    let target = BafsKey::new(5, 1, 0);
    let root =
        insert_into_tree(&disk, &mut cache, 10, target, vec![7], 2, &mut next, &mut freed);
    assert_eq!(root, Ok(11));
    assert_eq!(next, 12);
    assert_eq!(freed, vec![10]);
    assert_eq!(lookup_in_tree(&disk, &cache, 11, target), Ok(Some(vec![7])));
    assert_eq!(lookup_in_tree(&disk, &cache, 11, BafsKey::new(5, 1, 1)), Ok(None));
    assert_eq!(lookup_in_tree(&disk, &cache, 10, target), Ok(None));
}

#[test]
fn full_leaf_is_divided_into_two() {
    let mut tree = Tree::new();
    for offset in 0..4u64 {
        tree.insert(key(offset), &[0u8; 993]).unwrap();
    }
    assert_eq!(tree.next, 15);
    let whole = read_tree_node(&tree.disk, &tree.cache, tree.root).unwrap();
    assert_eq!(whole.leaf_items.len(), 4);
    tree.insert(key(4), &[1u8; 993]).unwrap();
    assert_eq!(tree.next, 18);
    assert_eq!(tree.root, 17);
    assert_eq!(tree.freed, vec![10, 11, 12, 13, 14]);
    let root = read_tree_node(&tree.disk, &tree.cache, 17).unwrap();
    let right = read_tree_node(&tree.disk, &tree.cache, 15).unwrap();
    let left = read_tree_node(&tree.disk, &tree.cache, 16).unwrap();
    assert_eq!(root.level, 1);
    assert_eq!(root.internal_items.len(), 2);
    assert_eq!(root.internal_items[0].child_block, 16);
    assert_eq!(root.internal_items[1].child_block, 15);
    assert_eq!(left.leaf_items.len() + right.leaf_items.len(), 5);
    assert_eq!(left.leaf_items[0].key.offset, 0);
    assert_eq!(right.leaf_items[0].key.offset, left.leaf_items.len() as u64);
    assert_eq!(root.internal_items[1].key.offset, right.leaf_items[0].key.offset);
}

/// The blocks of the tree at `address`.
fn blocks_of(tree: &Tree, address: u64) -> Vec<u64> {
    let top = read_tree_node(&tree.disk, &tree.cache, address).unwrap();
    let mut blocks = vec![address];
    for item in &top.internal_items {
        blocks.extend(blocks_of(tree, item.child_block));
    }
    blocks
}

#[test]
fn superseded_nodes_leave_the_tree() {
    let mut tree = Tree::new();
    for offset in scattered(2000) {
        tree.insert(key(offset), &[0u8; 60]).unwrap();
    }
    for offset in (0..2000u64).filter(|offset| offset % 5 == 0) {
        tree.delete(key(offset)).unwrap();
    }
    let mut blocks = blocks_of(&tree, tree.root);
    assert!(tree.freed.iter().all(|freed| !blocks.contains(freed)));
    let count = blocks.len();
    blocks.sort();
    blocks.dedup();
    assert_eq!(blocks.len(), count);
    assert!(blocks.iter().all(|block| *block < tree.next));
}

#[test]
fn leaf_round_trip_keeps_the_node() {
    let node = BafsTreeNode {
        node_checksum: 0,
        level: 0,
        flags: 0,
        item_count: 2,
        self_block_address: 77,
        generation: 5,
        leaf_items: vec![
            BafsLeafItem { key: key(1), value: b"one".to_vec() },
            BafsLeafItem { key: key(2), value: Vec::new() },
        ],
        internal_items: Vec::new(),
    };
    let block = serialise_node_to_block(&node);
    assert_eq!(block.len(), 4096);
    let read = deserialise_node_from_block(&block, 77).unwrap();
    assert_eq!(read.level, 0);
    assert_eq!(read.item_count, 2);
    assert_eq!(read.self_block_address, 77);
    assert_eq!(read.generation, 5);
    assert_eq!(read.leaf_items[0].value, b"one".to_vec());
    assert!(read.leaf_items[0].key.same(&key(1)));
    assert!(read.leaf_items[1].value.is_empty());
}

#[test]
fn internal_round_trip_keeps_the_node() {
    let node = BafsTreeNode {
        node_checksum: 0,
        level: 3,
        flags: 0,
        item_count: 2,
        self_block_address: 8,
        generation: 9,
        leaf_items: Vec::new(),
        internal_items: vec![
            BafsInternalItem { key: key(1), child_block: 100, child_generation: 4 },
            BafsInternalItem { key: key(9), child_block: 200, child_generation: 5 },
        ],
    };
    let block = serialise_node_to_block(&node);
    let read = deserialise_node_from_block(&block, 8).unwrap();
    assert_eq!(read.level, 3);
    assert_eq!(read.internal_items.len(), 2);
    assert_eq!(read.internal_items[1].child_block, 200);
    assert_eq!(read.internal_items[1].child_generation, 5);
    assert!(read.internal_items[1].key.same(&key(9)));
}

#[test]
fn new_nodes_carry_their_transaction() {
    let mut tree = Tree::new();
    for offset in scattered(500) {
        tree.insert(key(offset), &[1u8; 40]).unwrap();
    }
    let first = tree.next;
    tree.root = insert_into_tree(
        &tree.disk,
        &mut tree.cache,
        tree.root,
        key(9999),
        vec![2u8; 40],
        77,
        &mut tree.next,
        &mut tree.freed,
    )
    .unwrap();
    assert!(tree.next >= first + 2);
    for address in 10..tree.next {
        let node = read_tree_node(&tree.disk, &tree.cache, address).unwrap();
        assert_eq!(node.generation, if address < first { 1 } else { 77 });
        assert_eq!(node.self_block_address, address);
    }
}

#[test]
fn damaged_node_is_detected_wherever_it_is_damaged() {
    let mut tree = Tree::new();
    tree.insert(key(1), b"value").unwrap();
    let block = tree.cache[&tree.root].clone();
    for position in (0..4096).step_by(37) {
        let mut damaged = block.clone();
        damaged[position] ^= 0x80;
        tree.cache.insert(tree.root, damaged);
        assert_eq!(
            read_tree_node(&tree.disk, &tree.cache, tree.root).err(),
            Some(BafsError::InvalidChecksum { block_address: tree.root })
        );
    }
}

#[test]
fn missing_root_is_an_io_error() {
    let tree = Tree::new();
    assert_eq!(
        lookup_in_tree(&tree.disk, &tree.cache, 500, key(1)).err(),
        Some(BafsError::InputOutputError)
    );
}
