//! Superblocks, inodes, extents, directory entries, checksums and messages.

use std::collections::BTreeMap;

use bafs::block_device::{BlockDevice, MemoryDisk};
use bafs::btree::{create_empty_tree, insert_into_tree, BafsKey, ITEM_TYPE_DIRECTORY_ENTRY};
use bafs::checksum::compute_crc32c;
use bafs::checksum_tree::{store_data_block_checksum, verify_data_block_checksum};
use bafs::dir::{
    deserialise_dir_entry_from_bytes, directory_create_entry, directory_is_empty,
    directory_list_all_entries, directory_lookup_entry, directory_unlink_entry,
    serialise_dir_entry_to_bytes, xxhash64_with_seed_zero, BafsDirEntry, CHILD_TYPE_REGULAR_FILE,
};
use bafs::error::BafsError;
use bafs::extent::{
    allocate_blocks, deserialise_extent_data_from_bytes, free_blocks,
    insert_free_extent_into_tree, read_extent_data_for_file_offset,
    serialise_extent_data_to_bytes, write_extent_data_to_inode_tree, BafsExtentData,
};
use bafs::inode::{
    allocate_next_inode_number, deserialise_inode_from_bytes, read_inode_from_tree,
    serialise_inode_to_bytes, write_inode_to_tree, BafsInode,
};
use bafs::superblock::{
    deserialise_superblock_from_bytes, read_superblock_from_device, serialise_superblock_to_bytes,
    write_superblock_to_device, BafsSuperblock, BAFS_MAGIC_NUMBER,
};

/// A device with one empty tree in its cache.
struct Store {
    disk: MemoryDisk,
    cache: BTreeMap<u64, Vec<u8>>,
    root: u64,
    next: u64,
    freed: Vec<u64>,
}

impl Store {
    fn new() -> Self {
        let mut cache = BTreeMap::new();
        create_empty_tree(&mut cache, 10, 1);
        Store { disk: MemoryDisk::new(64), cache, root: 10, next: 11, freed: Vec::new() }
    }

    fn add_entry(&mut self, name: &str, child: u64) -> Result<(), BafsError> {
        self.root = directory_create_entry(
            &self.disk,
            &mut self.cache,
            self.root,
            1,
            name,
            child,
            CHILD_TYPE_REGULAR_FILE,
            1,
            &mut self.next,
            &mut self.freed,
        )?;
        Ok(())
    }

    fn remove_entry(&mut self, name: &str) -> Result<(), BafsError> {
        self.root = directory_unlink_entry(
            &self.disk,
            &mut self.cache,
            self.root,
            1,
            name,
            1,
            &mut self.next,
            &mut self.freed,
        )?;
        Ok(())
    }

    fn find(&self, name: &str) -> Result<Option<u64>, BafsError> {
        let entry = directory_lookup_entry(&self.disk, &self.cache, self.root, 1, name)?;
        Ok(entry.map(|entry| entry.child_inode_number))
    }

    fn add_free(&mut self, address: u64, count: u64) {
        self.root = insert_free_extent_into_tree(
            &self.disk,
            &mut self.cache,
            self.root,
            address,
            count,
            1,
            &mut self.next,
            &mut self.freed,
        )
        .unwrap();
    }

    fn allocate(&mut self, count: u64) -> Result<u64, BafsError> {
        let (address, root) = allocate_blocks(
            &self.disk,
            &mut self.cache,
            self.root,
            count,
            1,
            &mut self.next,
            &mut self.freed,
        )?;
        self.root = root;
        Ok(address)
    }

    fn free(&mut self, address: u64, count: u64) {
        self.root = free_blocks(
            &self.disk,
            &mut self.cache,
            self.root,
            address,
            count,
            1,
            &mut self.next,
            &mut self.freed,
        )
        .unwrap();
    }

    /// Put raw bytes where the entries with the hash of `name` are kept.
    fn put_raw_entries(&mut self, name: &str, value: Vec<u8>) {
        let hash = xxhash64_with_seed_zero(name.as_bytes());
        self.root = insert_into_tree(
            &self.disk,
            &mut self.cache,
            self.root,
            BafsKey::new(1, ITEM_TYPE_DIRECTORY_ENTRY, hash),
            value,
            1,
            &mut self.next,
            &mut self.freed,
        )
        .unwrap();
    }
}

fn superblock() -> BafsSuperblock {
    BafsSuperblock {
        magic_number: BAFS_MAGIC_NUMBER,
        version: 1,
        block_size_in_bytes: 4096,
        total_block_count: 1000,
        free_block_count: 900,
        allocated_inode_count: 3,
        last_committed_transaction_id: 12,
        root_inode_number: 1,
        inode_tree_root_block: 300,
        free_extent_tree_root_block: 301,
        checksum_tree_root_block: 302,
        journal_start_block: 3,
        journal_size_in_blocks: 256,
        volume_uuid: [5, 6],
        volume_label: [1, 2, 3, 4],
        feature_flags: 0,
        checksum_algorithm: 0,
        next_cow_block_address: 303,
        reserved: [0u8; 348],
        superblock_checksum: 0,
    }
}

#[test]
fn superblock_fields_are_where_they_belong() {
    let mut original = superblock();
    original.seal_with_checksum();
    assert!(original.verify_checksum());
    let bytes = serialise_superblock_to_bytes(&original);
    assert_eq!(&bytes[0..8], b"BAFS\x1B\0\0\0");
    assert_eq!(&bytes[8..12], &1u32.to_le_bytes());
    assert_eq!(&bytes[16..24], &1000u64.to_le_bytes());
    assert_eq!(&bytes[40..48], &12u64.to_le_bytes());
    assert_eq!(&bytes[80..88], &3u64.to_le_bytes());
    assert_eq!(&bytes[96..104], &5u64.to_le_bytes());
    assert_eq!(&bytes[152..160], &303u64.to_le_bytes());
    assert_eq!(&bytes[508..512], &compute_crc32c(&bytes[..508]).to_le_bytes());
    let read = deserialise_superblock_from_bytes(&bytes);
    assert_eq!(serialise_superblock_to_bytes(&read), bytes);
    assert_eq!(read.volume_label, [1, 2, 3, 4]);
    assert_eq!(read.next_cow_block_address, 303);
}

#[test]
fn stored_superblock_is_found_in_both_places() {
    let mut disk = MemoryDisk::new(64);
    let mut original = superblock();
    write_superblock_to_device(&mut disk, &mut original).unwrap();
    for address in [1, 2] {
        let found = read_superblock_from_device(&disk, address).unwrap();
        assert_eq!(found.last_committed_transaction_id, 12);
        assert_eq!(found.superblock_checksum, original.superblock_checksum);
    }
}

#[test]
fn damaged_superblocks_are_refused() {
    let mut disk = MemoryDisk::new(64);
    let mut original = superblock();
    write_superblock_to_device(&mut disk, &mut original).unwrap();
    let mut block = vec![0u8; 4096];
    assert!(disk.read_sectors(8, 8, &mut block));
    let refusal = |position: usize| {
        let mut damaged = MemoryDisk::new(64);
        let mut bytes = block.clone();
        bytes[position] ^= 2;
        assert!(damaged.write_sectors(8, 8, &bytes));
        read_superblock_from_device(&damaged, 1).err()
    };
    assert_eq!(refusal(0), Some(BafsError::InvalidMagicNumber));
    assert_eq!(refusal(8), Some(BafsError::UnsupportedVersion { found_version: 3 }));
    assert_eq!(refusal(300), Some(BafsError::InvalidChecksum { block_address: 1 }));
    assert_eq!(refusal(511), Some(BafsError::InvalidChecksum { block_address: 1 }));
    assert_eq!(refusal(600), None);
    assert_eq!(
        read_superblock_from_device(&disk, 1000).err(),
        Some(BafsError::InputOutputError)
    );
}

#[test]
fn inode_round_trip_keeps_every_field() {
    let mut inode = BafsInode::new_regular_file(9, 4, 123);
    inode.file_size_in_bytes = 1 << 40;
    inode.allocated_block_count = 77;
    inode.owner_uid = 1000;
    inode.hard_link_count = 3;
    let bytes = serialise_inode_to_bytes(&inode);
    assert_eq!(&bytes[0..8], &9u64.to_le_bytes());
    let read = deserialise_inode_from_bytes(&bytes);
    assert_eq!(serialise_inode_to_bytes(&read), bytes);
    assert_eq!(read.file_size_in_bytes, 1 << 40);
    assert_eq!(read.creation_time_nanoseconds, 123);
    assert_eq!(read.posix_mode, 0o100644);
    assert!(read.is_regular_file());
    assert!(!read.is_directory());
    assert!(BafsInode::new_directory(1, 1, 0).is_directory());
    assert_eq!(allocate_next_inode_number(41), 42);
}

/// Put entries with other names under the key of `name`, of `length` bytes together.
fn crowd(store: &mut Store, name: &str, length: usize) {
    let mut record = Vec::new();
    let mut number = 100u64;
    while record.len() < length {
        let size = (length - record.len()).min(12 + 255);
        let filename = format!("{}{}", number, "x".repeat(size - 12 - 3));
        record.extend(serialise_dir_entry_to_bytes(&BafsDirEntry {
            child_inode_number: number,
            child_type: CHILD_TYPE_REGULAR_FILE,
            name_length_bytes: filename.len() as u8,
            filename,
        }));
        number += 1;
    }
    let key =
        BafsKey::new(1, ITEM_TYPE_DIRECTORY_ENTRY, xxhash64_with_seed_zero(name.as_bytes()));
    store.root = insert_into_tree(
        &store.disk,
        &mut store.cache,
        store.root,
        key,
        record,
        1,
        &mut store.next,
        &mut store.freed,
    )
    .unwrap();
}

#[test]
fn many_names_with_one_hash_fit_into_a_leaf() {
    let name = "n".repeat(255);
    let mut store = Store::new();
    crowd(&mut store, &name, 7 * 267);
    store.add_entry(&name, 5).unwrap();
    assert_eq!(store.find(&name), Ok(Some(5)));
    assert_eq!(store.add_entry(&name, 6), Err(BafsError::AlreadyExists));
    store.remove_entry(&name).unwrap();
    assert_eq!(store.find(&name), Ok(None));

    let mut full = Store::new();
    crowd(&mut full, &name, 4047 - 267);
    full.add_entry(&name, 5).unwrap();
    assert_eq!(full.find(&name), Ok(Some(5)));
}

#[test]
fn names_with_one_hash_are_refused_where_no_leaf_holds_them() {
    let name = "n".repeat(255);
    let mut store = Store::new();
    crowd(&mut store, &name, 4047 - 266);
    let next = store.next;
    assert_eq!(store.add_entry(&name, 5), Err(BafsError::OutOfSpace));
    assert_eq!(store.find(&name), Ok(None));
    assert_eq!(store.next, next);
}

#[test]
fn inode_is_read_back_from_its_tree() {
    let mut store = Store::new();
    let inode = BafsInode::new_directory(5, 2, 8);
    store.root = write_inode_to_tree(
        &store.disk,
        &mut store.cache,
        store.root,
        &inode,
        2,
        &mut store.next,
        &mut store.freed,
    )
    .unwrap();
    let read = read_inode_from_tree(&store.disk, &store.cache, store.root, 5).unwrap();
    assert_eq!(serialise_inode_to_bytes(&read), serialise_inode_to_bytes(&inode));
    assert_eq!(
        read_inode_from_tree(&store.disk, &store.cache, store.root, 6).err(),
        Some(BafsError::NotFound)
    );
}

#[test]
fn extent_round_trip_and_lookup() {
    let extent = BafsExtentData {
        logical_byte_offset: 4096,
        first_disk_block: 500,
        block_count: 2,
        extent_flags: 0,
        reserved: 0,
    };
    let bytes = serialise_extent_data_to_bytes(&extent);
    assert_eq!(deserialise_extent_data_from_bytes(&bytes).first_disk_block, 500);
    let mut store = Store::new();
    store.root = write_extent_data_to_inode_tree(
        &store.disk,
        &mut store.cache,
        store.root,
        3,
        &extent,
        1,
        &mut store.next,
        &mut store.freed,
    )
    .unwrap();
    let find = |offset: u64| {
        read_extent_data_for_file_offset(&store.disk, &store.cache, store.root, 3, offset)
            .unwrap()
            .map(|extent| extent.first_disk_block)
    };
    assert_eq!(find(4095), None);
    assert_eq!(find(4096), Some(500));
    assert_eq!(find(12_287), Some(500));
    assert_eq!(find(12_288), None);
}

#[test]
fn allocation_takes_the_first_extent_that_fits() {
    let mut store = Store::new();
    store.add_free(1000, 4);
    store.add_free(2000, 100);
    store.add_free(3000, 10);
    assert_eq!(store.allocate(10), Ok(2000));
    assert_eq!(store.allocate(4), Ok(1000));
    assert_eq!(store.allocate(90), Ok(2010));
    assert_eq!(store.allocate(11), Err(BafsError::OutOfSpace));
    assert_eq!(store.allocate(10), Ok(3000));
    assert_eq!(store.allocate(1), Err(BafsError::OutOfSpace));
}

#[test]
fn freed_blocks_merge_with_their_neighbours() {
    let mut store = Store::new();
    store.add_free(1000, 100);
    assert_eq!(store.allocate(10), Ok(1000));
    assert_eq!(store.allocate(10), Ok(1010));
    assert_eq!(store.allocate(10), Ok(1020));
    store.free(1000, 10);
    store.free(1020, 10);
    assert_eq!(store.allocate(81), Err(BafsError::OutOfSpace));
    store.free(1010, 10);
    assert_eq!(store.allocate(100), Ok(1000));
}

#[test]
fn entry_bytes_are_laid_out_as_documented() {
    let entry = BafsDirEntry {
        child_inode_number: 0x0102,
        child_type: CHILD_TYPE_REGULAR_FILE,
        name_length_bytes: 3,
        filename: "abc".to_string(),
    };
    let bytes = serialise_dir_entry_to_bytes(&entry);
    assert_eq!(bytes, b"\x02\x01\0\0\0\0\0\0\x08\x03\0\0abc");
    let read = deserialise_dir_entry_from_bytes(&bytes).unwrap();
    assert_eq!(read.filename, "abc");
    assert_eq!(read.child_inode_number, 0x0102);
    assert_eq!(
        deserialise_dir_entry_from_bytes(&bytes[..14]).err(),
        Some(BafsError::CorruptedStructure)
    );
    assert_eq!(
        deserialise_dir_entry_from_bytes(&bytes[..5]).err(),
        Some(BafsError::CorruptedStructure)
    );
}

#[test]
fn invalid_utf8_in_a_name_is_replaced() {
    let bytes = b"\x01\0\0\0\0\0\0\0\x08\x03\0\0a\xFFb";
    let read = deserialise_dir_entry_from_bytes(bytes).unwrap();
    assert_eq!(read.filename, "a\u{FFFD}b");
    let valid = "\x01\0\0\0\0\0\0\0\x08\x04\0\0a\u{E9}b";
    assert_eq!(deserialise_dir_entry_from_bytes(valid.as_bytes()).unwrap().filename, "a\u{E9}b");
}

#[test]
fn names_are_entered_found_and_removed() {
    let mut store = Store::new();
    assert_eq!(directory_is_empty(&store.disk, &store.cache, store.root, 1), Ok(true));
    store.add_entry("one", 11).unwrap();
    store.add_entry("two", 22).unwrap();
    assert_eq!(store.add_entry("one", 33), Err(BafsError::AlreadyExists));
    assert_eq!(store.find("one"), Ok(Some(11)));
    assert_eq!(store.find("two"), Ok(Some(22)));
    assert_eq!(store.find("three"), Ok(None));
    assert_eq!(directory_is_empty(&store.disk, &store.cache, store.root, 1), Ok(false));
    store.remove_entry("one").unwrap();
    assert_eq!(store.find("one"), Ok(None));
    assert_eq!(store.find("two"), Ok(Some(22)));
    assert_eq!(store.remove_entry("one"), Err(BafsError::NotFound));
}

#[test]
fn names_with_the_same_hash_share_a_record() {
    let mut store = Store::new();
    let other = BafsDirEntry {
        child_inode_number: 50,
        child_type: CHILD_TYPE_REGULAR_FILE,
        name_length_bytes: 5,
        filename: "other".to_string(),
    };
    store.put_raw_entries("mine", serialise_dir_entry_to_bytes(&other));
    assert_eq!(store.find("mine"), Ok(None));
    store.add_entry("mine", 60).unwrap();
    assert_eq!(store.find("mine"), Ok(Some(60)));
    let names: Vec<String> = directory_list_all_entries(&store.disk, &store.cache, store.root, 1)
        .unwrap()
        .iter()
        .map(|entry| entry.filename.clone())
        .collect();
    assert_eq!(names, vec!["other".to_string(), "mine".to_string()]);
    store.remove_entry("mine").unwrap();
    let left = directory_list_all_entries(&store.disk, &store.cache, store.root, 1).unwrap();
    assert_eq!(left.len(), 1);
    assert_eq!(left[0].filename, "other");
}

#[test]
fn data_block_checksums_are_checked() {
    let mut store = Store::new();
    let block = vec![9u8; 4096];
    assert_eq!(
        verify_data_block_checksum(&store.disk, &store.cache, store.root, 70, &block),
        Ok(())
    );
    store.root = store_data_block_checksum(
        &store.disk,
        &mut store.cache,
        store.root,
        70,
        &block,
        1,
        &mut store.next,
        &mut store.freed,
    )
    .unwrap();
    assert_eq!(
        verify_data_block_checksum(&store.disk, &store.cache, store.root, 70, &block),
        Ok(())
    );
    let mut damaged = block.clone();
    damaged[4095] = 8;
    assert_eq!(
        verify_data_block_checksum(&store.disk, &store.cache, store.root, 70, &damaged),
        Err(BafsError::InvalidChecksum { block_address: 70 })
    );
}

#[test]
fn every_error_has_its_message() {
    let messages = [
        (BafsError::InputOutputError, "I/O error on the underlying block device"),
        (
            BafsError::InvalidChecksum { block_address: 1234567890 },
            "CRC32C checksum mismatch on block 1234567890",
        ),
        (BafsError::InvalidMagicNumber, "not a BAFS filesystem (invalid magic number)"),
        (
            BafsError::UnsupportedVersion { found_version: 0 },
            "unsupported BAFS version 0 (this implementation supports v1 only)",
        ),
        (BafsError::OutOfSpace, "no free space left on the filesystem"),
        (BafsError::NotFound, "no such file or directory"),
        (BafsError::NotADirectory, "not a directory"),
        (BafsError::NotARegularFile, "not a regular file"),
        (BafsError::AlreadyExists, "file or directory already exists"),
        (BafsError::DirectoryNotEmpty, "directory not empty"),
        (BafsError::InvalidArgument, "invalid argument"),
        (BafsError::CorruptedStructure, "filesystem metadata is corrupted"),
        (BafsError::NotSupported, "operation not supported"),
    ];
    for (error, message) in messages {
        assert_eq!(error.to_string(), message);
    }
}
