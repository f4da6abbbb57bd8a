//! Files and directories on mounted volumes.

use bafs::block_device::{BlockDevice, MemoryDisk};
use bafs::dir::{CHILD_TYPE_DIRECTORY, CHILD_TYPE_REGULAR_FILE};
use bafs::error::BafsError;
use bafs::extent::read_extent_data_for_file_offset;
use bafs::superblock::{
    compute_data_area_start_block, compute_journal_size_in_blocks, read_superblock_from_device,
};
use bafs::volume::{
    bafs_format, bafs_mount, bafs_unmount, compute_node_area_end, flush_and_commit,
    volume_create_directory, volume_create_file, volume_lookup_directory_entry,
    volume_read_directory_entry_at_index, volume_read_file_data, volume_read_inode,
    volume_unlink_directory_entry, volume_write_file_data, BafsFormatOptions, BafsVolume,
};

/// A disk of `block_count` blocks.
fn disk_of(block_count: u32) -> MemoryDisk {
    MemoryDisk::new(block_count * 8)
}

fn new_volume(block_count: u32) -> BafsVolume<MemoryDisk> {
    let mut disk = disk_of(block_count);
    bafs_format(&mut disk, BafsFormatOptions::default()).unwrap();
    bafs_mount(disk).unwrap()
}

fn remount(mut volume: BafsVolume<MemoryDisk>) -> BafsVolume<MemoryDisk> {
    flush_and_commit(&mut volume).unwrap();
    bafs_mount(volume.device).unwrap()
}

fn read_all(volume: &BafsVolume<MemoryDisk>, inode: u64, length: usize) -> Vec<u8> {
    let mut buffer = vec![0u8; length];
    let count = volume_read_file_data(volume, inode, 0, &mut buffer).unwrap();
    buffer.truncate(count);
    buffer
}

fn counting(length: usize, start: usize) -> Vec<u8> {
    (0..length).map(|index| ((index + start) % 251) as u8).collect()
}

#[test]
fn areas_have_the_documented_sizes() {
    assert_eq!(compute_journal_size_in_blocks(1000), 256);
    assert_eq!(compute_journal_size_in_blocks(131_072), 1310);
    assert_eq!(compute_journal_size_in_blocks(u64::MAX), 16_384);
    assert_eq!(compute_data_area_start_block(1000), 259);
    assert_eq!(compute_node_area_end(272), 268);
    assert_eq!(compute_node_area_end(1000), 632);
}

#[test]
fn format_needs_thirteen_blocks_behind_the_journal() {
    let mut small = disk_of(271);
    assert_eq!(
        bafs_format(&mut small, BafsFormatOptions::default()),
        Err(BafsError::OutOfSpace)
    );
    let mut large_enough = disk_of(272);
    assert_eq!(bafs_format(&mut large_enough, BafsFormatOptions::default()), Ok(()));
    assert!(bafs_mount(large_enough).is_ok());
}

#[test]
fn new_volume_has_a_root_directory_and_nothing_else() {
    let volume = new_volume(2000);
    assert_eq!(&volume.superblock.magic_number, b"BAFS\x1B\0\0\0");
    assert_eq!(volume.superblock.total_block_count, 2000);
    assert_eq!(volume.superblock.free_block_count, 2000 - compute_node_area_end(2000));
    assert_eq!(volume.superblock.allocated_inode_count, 1);
    assert_eq!(volume.superblock.last_committed_transaction_id, 1);
    assert_eq!(volume.superblock.volume_uuid, [0xBAF5_0001_0000_0001, 0]);
    assert_eq!(&volume.superblock.volume_label[0].to_le_bytes(), b"BAFS Vol");
    assert_eq!(&volume.superblock.volume_label[1].to_le_bytes(), b"ume\0\0\0\0\0");
    assert_eq!(volume.next_transaction_id, 2);
    let root = volume_read_inode(&volume, 1).unwrap();
    assert!(root.is_directory());
    assert_eq!(root.hard_link_count, 2);
    assert_eq!(root.posix_mode, 0o040755);
    assert!(volume_read_directory_entry_at_index(&volume, 1, 0).unwrap().is_none());
    assert_eq!(volume_read_inode(&volume, 2).err(), Some(BafsError::NotFound));
}

#[test]
fn unformatted_disk_cannot_be_mounted() {
    assert_eq!(bafs_mount(disk_of(300)).err(), Some(BafsError::InvalidMagicNumber));
    assert_eq!(bafs_mount(disk_of(1)).err(), Some(BafsError::InputOutputError));
}

#[test]
fn backup_superblock_stands_in_for_a_damaged_primary() {
    let mut volume = new_volume(1000);
    volume_create_file(&mut volume, 1, "kept").unwrap();
    let mut disk = remount(volume).device;
    assert!(disk.write_sectors(8, 8, &[0u8; 4096]));
    assert_eq!(
        read_superblock_from_device(&disk, 1).err(),
        Some(BafsError::InvalidMagicNumber)
    );
    let volume = bafs_mount(disk).unwrap();
    assert_eq!(volume_lookup_directory_entry(&volume, 1, "kept"), Ok(Some(2)));
}

#[test]
fn large_file_is_read_back_from_every_offset() {
    let mut volume = new_volume(4000);
    let file = volume_create_file(&mut volume, 1, "large").unwrap();
    let data = counting(70_000, 3);
    assert_eq!(volume_write_file_data(&mut volume, file, 0, &data), Ok(70_000));
    let inode = volume_read_inode(&volume, file).unwrap();
    assert_eq!(inode.file_size_in_bytes, 70_000);
    assert_eq!(inode.allocated_block_count, 18);
    assert_eq!(read_all(&volume, file, 70_000), data);
    let volume = remount(volume);
    for offset in [0usize, 1, 4095, 4096, 4097, 8191, 40_000, 69_999] {
        let mut buffer = vec![0xEEu8; 5000];
        let count = volume_read_file_data(&volume, file, offset as u64, &mut buffer).unwrap();
        assert_eq!(count, 5000.min(70_000 - offset));
        assert_eq!(&buffer[..count], &data[offset..offset + count]);
        assert!(buffer[count..].iter().all(|byte| *byte == 0xEE));
    }
}

#[test]
fn reading_ends_with_the_file() {
    let mut volume = new_volume(1000);
    let file = volume_create_file(&mut volume, 1, "short").unwrap();
    volume_write_file_data(&mut volume, file, 0, b"abc").unwrap();
    let mut buffer = [0u8; 8];
    assert_eq!(volume_read_file_data(&volume, file, 1, &mut buffer), Ok(2));
    assert_eq!(&buffer, b"bc\0\0\0\0\0\0");
    assert_eq!(volume_read_file_data(&volume, file, 3, &mut buffer), Ok(0));
    assert_eq!(volume_read_file_data(&volume, file, u64::MAX, &mut buffer), Ok(0));
    assert_eq!(volume_read_file_data(&volume, file, 0, &mut []), Ok(0));
}

#[test]
fn appending_whole_blocks_extends_the_file() {
    let mut volume = new_volume(2000);
    let file = volume_create_file(&mut volume, 1, "log").unwrap();
    let first = counting(8192, 0);
    let second = counting(5000, 77);
    volume_write_file_data(&mut volume, file, 0, &first).unwrap();
    volume_write_file_data(&mut volume, file, 8192, &second).unwrap();
    let mut expected = first.clone();
    expected.extend_from_slice(&second);
    assert_eq!(read_all(&volume, file, 20_000), expected);
}

#[test]
fn earlier_extent_hides_an_overlapping_later_one() {
    let mut volume = new_volume(1000);
    let file = volume_create_file(&mut volume, 1, "overlap").unwrap();
    volume_write_file_data(&mut volume, file, 0, b"0123456789").unwrap();
    volume_write_file_data(&mut volume, file, 10, b"abcdef").unwrap();
    assert_eq!(volume_read_inode(&volume, file).unwrap().file_size_in_bytes, 16);
    assert_eq!(read_all(&volume, file, 16), b"0123456789\0\0\0\0\0\0");
}

#[test]
fn overwriting_the_start_replaces_the_contents() {
    let mut volume = new_volume(1000);
    let file = volume_create_file(&mut volume, 1, "again").unwrap();
    volume_write_file_data(&mut volume, file, 0, b"first version").unwrap();
    volume_write_file_data(&mut volume, file, 0, b"second one").unwrap();
    let inode = volume_read_inode(&volume, file).unwrap();
    assert_eq!(inode.file_size_in_bytes, 13);
    assert_eq!(inode.allocated_block_count, 2);
    assert_eq!(read_all(&volume, file, 10), b"second one");
}

#[test]
fn hole_in_a_file_is_reported() {
    let mut volume = new_volume(1000);
    let file = volume_create_file(&mut volume, 1, "hole").unwrap();
    volume_write_file_data(&mut volume, file, 8192, b"far out").unwrap();
    let mut buffer = [0u8; 7];
    assert_eq!(
        volume_read_file_data(&volume, file, 0, &mut buffer),
        Err(BafsError::CorruptedStructure)
    );
    assert_eq!(volume_read_file_data(&volume, file, 8192, &mut buffer), Ok(7));
    assert_eq!(&buffer, b"far out");
}

#[test]
fn writing_nothing_changes_nothing() {
    let mut volume = new_volume(1000);
    let next_free_block = volume.next_free_block;
    assert_eq!(volume_write_file_data(&mut volume, 99, 0, b""), Ok(0));
    assert_eq!(volume.next_free_block, next_free_block);
}

#[test]
fn files_and_directories_are_told_apart() {
    let mut volume = new_volume(1000);
    let file = volume_create_file(&mut volume, 1, "file").unwrap();
    let mut buffer = [0u8; 1];
    assert_eq!(
        volume_write_file_data(&mut volume, 1, 0, b"x"),
        Err(BafsError::NotARegularFile)
    );
    assert_eq!(
        volume_read_file_data(&volume, 1, 0, &mut buffer),
        Err(BafsError::NotARegularFile)
    );
    assert_eq!(volume_create_file(&mut volume, file, "x"), Err(BafsError::NotADirectory));
    assert_eq!(volume_create_directory(&mut volume, file, "x"), Err(BafsError::NotADirectory));
    assert_eq!(
        volume_lookup_directory_entry(&volume, file, "x"),
        Err(BafsError::NotADirectory)
    );
    assert_eq!(volume_create_file(&mut volume, 77, "x"), Err(BafsError::NotFound));
    assert_eq!(volume_write_file_data(&mut volume, 77, 0, b"x"), Err(BafsError::NotFound));
    assert_eq!(volume_read_file_data(&volume, 77, 0, &mut buffer), Err(BafsError::NotFound));
}

#[test]
fn names_are_checked() {
    let mut volume = new_volume(1000);
    volume_create_file(&mut volume, 1, "taken").unwrap();
    assert_eq!(volume_create_file(&mut volume, 1, "taken"), Err(BafsError::AlreadyExists));
    assert_eq!(volume_create_directory(&mut volume, 1, "taken"), Err(BafsError::AlreadyExists));
    assert_eq!(volume_create_file(&mut volume, 1, ""), Err(BafsError::InvalidArgument));
    let longest = "n".repeat(255);
    let too_long = "n".repeat(256);
    assert!(volume_create_file(&mut volume, 1, &longest).is_ok());
    assert_eq!(volume_create_file(&mut volume, 1, &too_long), Err(BafsError::InvalidArgument));
    assert_eq!(volume_lookup_directory_entry(&volume, 1, "other"), Ok(None));
}

#[test]
fn refused_name_uses_up_no_inode_number() {
    let mut volume = new_volume(1000);
    assert_eq!(volume_create_file(&mut volume, 1, "a"), Ok(2));
    let next = volume.next_free_block;
    let superseded = volume.superseded_blocks.len();
    assert_eq!(volume_create_file(&mut volume, 1, "a"), Err(BafsError::AlreadyExists));
    assert_eq!(volume_create_directory(&mut volume, 1, ""), Err(BafsError::InvalidArgument));
    assert_eq!(volume.superblock.allocated_inode_count, 2);
    assert_eq!(volume.next_free_block, next);
    assert_eq!(volume.superseded_blocks.len(), superseded);
    assert_eq!(volume_read_inode(&volume, 3).err(), Some(BafsError::NotFound));
    assert_eq!(volume_create_file(&mut volume, 1, "b"), Ok(3));
}

#[test]
fn unmount_hands_back_the_device_with_the_files() {
    let mut volume = new_volume(2000);
    let first = volume_create_file(&mut volume, 1, "first").unwrap();
    volume_write_file_data(&mut volume, first, 0, &counting(9000, 1)).unwrap();
    let second = volume_create_file(&mut volume, 1, "second").unwrap();
    volume_write_file_data(&mut volume, second, 0, &counting(5000, 7)).unwrap();
    let (result, device) = bafs_unmount(volume);
    assert_eq!(result, Ok(()));
    let volume = bafs_mount(device).unwrap();
    assert_eq!(volume_lookup_directory_entry(&volume, 1, "first"), Ok(Some(first)));
    assert_eq!(volume_lookup_directory_entry(&volume, 1, "second"), Ok(Some(second)));
    assert_eq!(read_all(&volume, first, 20_000), counting(9000, 1));
    assert_eq!(read_all(&volume, second, 20_000), counting(5000, 7));
    assert_eq!(volume.superseded_blocks.len(), 0);
}

#[test]
fn part_of_a_write_is_read_back_and_cut_off_at_the_end() {
    let mut volume = new_volume(2000);
    let file = volume_create_file(&mut volume, 1, "parts").unwrap();
    let data = counting(10_000, 2);
    volume_write_file_data(&mut volume, file, 0, &data).unwrap();
    let mut buffer = vec![0u8; 6000];
    assert_eq!(volume_read_file_data(&volume, file, 4095, &mut buffer[..3]), Ok(3));
    assert_eq!(buffer[..3], data[4095..4098]);
    assert_eq!(volume_read_file_data(&volume, file, 3000, &mut buffer), Ok(6000));
    assert_eq!(buffer[..], data[3000..9000]);
    assert_eq!(volume_read_file_data(&volume, file, 8192, &mut buffer), Ok(1808));
    assert_eq!(buffer[..1808], data[8192..]);
    assert_eq!(volume_read_file_data(&volume, file, 10_000, &mut buffer), Ok(0));
}

#[test]
fn every_change_appends_to_the_superseded_blocks() {
    let mut volume = new_volume(2000);
    let mut superseded = volume.superseded_blocks.clone();
    let mut first_new = volume.next_free_block;
    let file = volume_create_file(&mut volume, 1, "file").unwrap();
    assert!(volume.superseded_blocks.len() > superseded.len());
    assert_eq!(volume.superseded_blocks[..superseded.len()], superseded[..]);
    assert!(volume.superseded_blocks[0] < first_new);
    superseded = volume.superseded_blocks.clone();
    first_new = volume.next_free_block;
    volume_write_file_data(&mut volume, file, 0, b"data").unwrap();
    assert!(volume.superseded_blocks.len() > superseded.len());
    assert_eq!(volume.superseded_blocks[..superseded.len()], superseded[..]);
    assert!(volume.next_free_block > first_new);
    superseded = volume.superseded_blocks.clone();
    volume_unlink_directory_entry(&mut volume, 1, "file").unwrap();
    assert!(volume.superseded_blocks.len() > superseded.len());
    assert_eq!(volume.superseded_blocks[..superseded.len()], superseded[..]);
    flush_and_commit(&mut volume).unwrap();
    assert_eq!(volume.superseded_blocks.len(), 0);
}

#[test]
fn directories_hold_files_of_their_own() {
    let mut volume = new_volume(2000);
    let directory = volume_create_directory(&mut volume, 1, "sub").unwrap();
    let inner = volume_create_file(&mut volume, directory, "name").unwrap();
    let outer = volume_create_file(&mut volume, 1, "name").unwrap();
    assert_ne!(inner, outer);
    let volume = remount(volume);
    assert_eq!(volume_lookup_directory_entry(&volume, directory, "name"), Ok(Some(inner)));
    assert_eq!(volume_lookup_directory_entry(&volume, 1, "name"), Ok(Some(outer)));
    assert_eq!(volume_lookup_directory_entry(&volume, 1, "sub"), Ok(Some(directory)));
    let mut names = Vec::new();
    let mut index = 0;
    while let Some(entry) = volume_read_directory_entry_at_index(&volume, 1, index).unwrap() {
        names.push((entry.filename.clone(), entry.child_type, entry.child_inode_number));
        index += 1;
    }
    names.sort();
    assert_eq!(
        names,
        vec![
            ("name".to_string(), CHILD_TYPE_REGULAR_FILE, outer),
            ("sub".to_string(), CHILD_TYPE_DIRECTORY, directory),
        ]
    );
}

#[test]
fn many_files_are_all_found() {
    let mut volume = new_volume(12_000);
    for index in 0..300u32 {
        let file = volume_create_file(&mut volume, 1, &format!("file {}", index)).unwrap();
        volume_write_file_data(&mut volume, file, 0, &index.to_le_bytes()).unwrap();
        if index % 5 == 4 {
            flush_and_commit(&mut volume).unwrap();
        }
    }
    let volume = remount(volume);
    for index in 0..300u32 {
        let file = volume_lookup_directory_entry(&volume, 1, &format!("file {}", index))
            .unwrap()
            .unwrap();
        assert_eq!(read_all(&volume, file, 10), index.to_le_bytes());
    }
    assert!(volume_read_directory_entry_at_index(&volume, 1, 299).unwrap().is_some());
    assert!(volume_read_directory_entry_at_index(&volume, 1, 300).unwrap().is_none());
}

#[test]
fn unlinked_file_is_gone_and_its_blocks_are_used_again() {
    let mut volume = new_volume(1000);
    let data = counting(20_000, 9);
    let file = volume_create_file(&mut volume, 1, "gone").unwrap();
    let other = volume_create_file(&mut volume, 1, "stays").unwrap();
    volume_write_file_data(&mut volume, file, 0, &data).unwrap();
    volume_write_file_data(&mut volume, other, 0, b"untouched").unwrap();
    let free_before = volume.superblock.free_block_count;
    assert_eq!(volume_unlink_directory_entry(&mut volume, 1, "gone"), Ok(()));
    assert_eq!(volume_lookup_directory_entry(&volume, 1, "gone"), Ok(None));
    assert_eq!(volume_read_inode(&volume, file).err(), Some(BafsError::NotFound));
    assert_eq!(volume.superblock.free_block_count, free_before + 5);
    assert_eq!(read_all(&volume, other, 20), b"untouched");
    assert_eq!(
        volume_unlink_directory_entry(&mut volume, 1, "gone"),
        Err(BafsError::NotFound)
    );
    let again = volume_create_file(&mut volume, 1, "gone").unwrap();
    assert!(again > other);
    volume_write_file_data(&mut volume, again, 0, &data).unwrap();
    assert_eq!(volume.superblock.free_block_count, free_before);
    let extent = read_extent_data_for_file_offset(
        &volume.device,
        &volume.dirty_block_cache,
        volume.superblock.inode_tree_root_block,
        again,
        0,
    )
    .unwrap()
    .unwrap();
    assert_eq!(extent.first_disk_block, compute_node_area_end(1000));
    assert_eq!(extent.block_count, 5);
    assert_eq!(read_all(&volume, again, 20_000), data);
}

#[test]
fn directory_must_be_empty_to_be_unlinked() {
    let mut volume = new_volume(1000);
    let directory = volume_create_directory(&mut volume, 1, "sub").unwrap();
    volume_create_file(&mut volume, directory, "inner").unwrap();
    assert_eq!(
        volume_unlink_directory_entry(&mut volume, 1, "sub"),
        Err(BafsError::DirectoryNotEmpty)
    );
    assert_eq!(volume_lookup_directory_entry(&volume, 1, "sub"), Ok(Some(directory)));
    volume_unlink_directory_entry(&mut volume, directory, "inner").unwrap();
    assert_eq!(volume_unlink_directory_entry(&mut volume, 1, "sub"), Ok(()));
    assert_eq!(volume_lookup_directory_entry(&volume, 1, "sub"), Ok(None));
    assert_eq!(volume_read_inode(&volume, directory).unwrap().hard_link_count, 1);
}

#[test]
fn full_volume_refuses_data_and_keeps_what_it_has() {
    let mut volume = new_volume(300);
    let file = volume_create_file(&mut volume, 1, "fits").unwrap();
    volume_write_file_data(&mut volume, file, 0, b"small").unwrap();
    let data = vec![1u8; 30 * 4096];
    assert_eq!(
        volume_write_file_data(&mut volume, file, 0, &data),
        Err(BafsError::OutOfSpace)
    );
    assert_eq!(read_all(&volume, file, 10), b"small");
}

#[test]
fn tree_nodes_run_out_before_they_reach_the_data() {
    let mut volume = new_volume(300);
    let end = compute_node_area_end(300);
    let mut created = 0;
    let error = loop {
        match volume_create_file(&mut volume, 1, &format!("f{}", created)) {
            Ok(_) => created += 1,
            Err(error) => break error,
        }
    };
    assert_eq!(error, BafsError::OutOfSpace);
    assert!(created > 0);
    assert!(volume.next_free_block <= end);
    for index in 0..created {
        let found = volume_lookup_directory_entry(&volume, 1, &format!("f{}", index)).unwrap();
        assert_eq!(found, Some(index as u64 + 2));
    }
}

#[test]
fn damaged_data_block_is_reported_with_its_address() {
    let mut volume = new_volume(1000);
    let file = volume_create_file(&mut volume, 1, "data").unwrap();
    volume_write_file_data(&mut volume, file, 0, &counting(4096, 1)).unwrap();
    let mut volume = remount(volume);
    let address = compute_node_area_end(1000);
    let mut block = vec![0u8; 4096];
    assert!(volume.device.read_sectors(address * 8, 8, &mut block));
    block[100] ^= 0x10;
    assert!(volume.device.write_sectors(address * 8, 8, &block));
    let mut buffer = [0u8; 16];
    assert_eq!(
        volume_read_file_data(&volume, file, 0, &mut buffer),
        Err(BafsError::InvalidChecksum { block_address: address })
    );
}

#[test]
fn damaged_tree_node_is_reported_with_its_address() {
    let mut volume = new_volume(1000);
    let root = volume.superblock.inode_tree_root_block;
    let mut block = vec![0u8; 4096];
    assert!(volume.device.read_sectors(root * 8, 8, &mut block));
    block[4000] ^= 1;
    assert!(volume.device.write_sectors(root * 8, 8, &block));
    assert_eq!(
        volume_read_inode(&volume, 1).err(),
        Some(BafsError::InvalidChecksum { block_address: root })
    );
}

#[test]
fn uncommitted_changes_are_lost_and_committed_ones_kept() {
    let mut volume = new_volume(1000);
    volume_create_file(&mut volume, 1, "committed").unwrap();
    flush_and_commit(&mut volume).unwrap();
    assert!(volume.dirty_block_cache.is_empty());
    assert!(volume.superseded_blocks.is_empty());
    volume_create_file(&mut volume, 1, "lost").unwrap();
    let volume = bafs_mount(volume.device).unwrap();
    assert_eq!(volume_lookup_directory_entry(&volume, 1, "committed"), Ok(Some(2)));
    assert_eq!(volume_lookup_directory_entry(&volume, 1, "lost"), Ok(None));
}

#[test]
fn transaction_ids_grow_with_every_commit() {
    let mut volume = new_volume(1000);
    for id in 2..6u64 {
        assert_eq!(volume.next_transaction_id, id);
        flush_and_commit(&mut volume).unwrap();
        assert_eq!(volume.superblock.last_committed_transaction_id, id);
    }
    let volume = bafs_mount(volume.device).unwrap();
    assert_eq!(volume.next_transaction_id, 6);
}

#[test]
fn next_node_block_survives_a_remount() {
    let mut volume = new_volume(1000);
    volume_create_file(&mut volume, 1, "a").unwrap();
    let next_free_block = volume.next_free_block;
    let volume = remount(volume);
    assert_eq!(volume.next_free_block, next_free_block);
    assert_eq!(volume.superblock.next_cow_block_address, next_free_block);
}

#[test]
fn no_transaction_id_is_left_at_the_end() {
    let mut volume = new_volume(1000);
    volume.next_transaction_id = u64::MAX;
    assert_eq!(flush_and_commit(&mut volume), Err(BafsError::OutOfSpace));
    assert_eq!(bafs_unmount(volume).0, Err(BafsError::OutOfSpace));
}

#[test]
fn transaction_that_outgrows_the_journal_is_refused() {
    let mut volume = new_volume(4000);
    let file = volume_create_file(&mut volume, 1, "big").unwrap();
    volume_write_file_data(&mut volume, file, 0, &vec![3u8; 260 * 4096]).unwrap();
    assert_eq!(flush_and_commit(&mut volume), Err(BafsError::OutOfSpace));
    let volume = bafs_mount(volume.device).unwrap();
    assert_eq!(volume_lookup_directory_entry(&volume, 1, "big"), Ok(None));
}
