//! How much a volume takes, and what is left where it takes no more.

use bafs::block_device::{BlockDevice, MemoryDisk};
use bafs::btree::tree::tree_level;
use bafs::error::BafsError;
use bafs::superblock::serialise_superblock_to_bytes;
use bafs::volume::{
    bafs_format, bafs_mount, bafs_unmount, compute_node_area_end, flush_and_commit,
    volume_create_file, volume_lookup_directory_entry, volume_read_file_data, volume_read_inode,
    volume_unlink_directory_entry, volume_write_file_data, BafsFormatOptions, BafsVolume,
};

/// The blocks of a volume of 512 MiB.
const HALF_A_GIBIBYTE: u32 = 131_072;

fn new_volume(block_count: u32) -> BafsVolume<MemoryDisk> {
    let mut disk = MemoryDisk::new(block_count * 8);
    bafs_format(&mut disk, BafsFormatOptions::default()).unwrap();
    bafs_mount(disk).unwrap()
}

fn read_all(volume: &BafsVolume<MemoryDisk>, inode: u64, length: usize) -> Vec<u8> {
    let mut buffer = vec![0u8; length];
    let count = volume_read_file_data(volume, inode, 0, &mut buffer).unwrap();
    buffer.truncate(count);
    buffer
}

/// The superblock as a commit would write it.
fn image_of(volume: &BafsVolume<MemoryDisk>) -> Vec<u8> {
    serialise_superblock_to_bytes(&volume.superblock).to_vec()
}

fn counting(length: usize) -> Vec<u8> {
    (0..length).map(|index| (index % 251) as u8).collect()
}

#[test]
fn file_of_many_extents_is_unlinked() {
    let mut volume = new_volume(HALF_A_GIBIBYTE);
    let free_before = volume.superblock.free_block_count;
    let file = volume_create_file(&mut volume, 1, "fragments").unwrap();
    for index in 0..500u64 {
        assert_eq!(
            volume_write_file_data(&mut volume, file, index * 4096, &[index as u8; 4096]),
            Ok(4096)
        );
    }
    assert_eq!(volume_read_inode(&volume, file).unwrap().allocated_block_count, 500);
    assert_eq!(volume.superblock.free_block_count, free_before - 500);
    assert_eq!(volume_unlink_directory_entry(&mut volume, 1, "fragments"), Ok(()));
    assert_eq!(volume_lookup_directory_entry(&volume, 1, "fragments"), Ok(None));
    assert_eq!(volume_read_inode(&volume, file).err(), Some(BafsError::NotFound));
    assert_eq!(volume.superblock.free_block_count, free_before);
    let whole = volume_create_file(&mut volume, 1, "whole").unwrap();
    let data = counting(500 * 4096);
    assert_eq!(volume_write_file_data(&mut volume, whole, 0, &data), Ok(data.len()));
    assert_eq!(read_all(&volume, whole, data.len()), data);
}

#[test]
fn file_of_many_extents_is_gone_after_a_remount() {
    let mut volume = new_volume(HALF_A_GIBIBYTE);
    let free_before = volume.superblock.free_block_count;
    let kept = volume_create_file(&mut volume, 1, "kept").unwrap();
    assert_eq!(volume_write_file_data(&mut volume, kept, 0, b"still here"), Ok(10));
    let file = volume_create_file(&mut volume, 1, "fragments").unwrap();
    for index in 0..120u64 {
        assert_eq!(
            volume_write_file_data(&mut volume, file, index * 8192, &[index as u8; 100]),
            Ok(100)
        );
        if index % 40 == 39 {
            assert_eq!(flush_and_commit(&mut volume), Ok(()));
        }
    }
    assert_eq!(volume_unlink_directory_entry(&mut volume, 1, "fragments"), Ok(()));
    let (unmounted, disk) = bafs_unmount(volume);
    assert_eq!(unmounted, Ok(()));
    let volume = bafs_mount(disk).unwrap();
    assert_eq!(volume_lookup_directory_entry(&volume, 1, "fragments"), Ok(None));
    assert_eq!(volume_lookup_directory_entry(&volume, 1, "kept"), Ok(Some(kept)));
    assert_eq!(read_all(&volume, kept, 64), b"still here");
    assert_eq!(volume.superblock.free_block_count, free_before - 1);
}

#[test]
fn many_blocks_are_written_at_once() {
    let mut volume = new_volume(HALF_A_GIBIBYTE);
    let file = volume_create_file(&mut volume, 1, "long").unwrap();
    let data = counting(2000 * 4096 + 17);
    assert_eq!(volume_write_file_data(&mut volume, file, 0, &data), Ok(data.len()));
    assert_eq!(read_all(&volume, file, data.len() + 5), data);
    let level = tree_level(
        &volume.device,
        &volume.dirty_block_cache,
        volume.superblock.checksum_tree_root_block,
    );
    assert!(level.unwrap() <= 2);
}

fn put_two_files(one_by_one: bool) {
    let mut volume = new_volume(HALF_A_GIBIBYTE);
    let alpha = volume_create_file(&mut volume, 1, "alpha.txt").unwrap();
    if one_by_one {
        assert_eq!(volume_write_file_data(&mut volume, alpha, 0, b"file alpha"), Ok(10));
    }
    let beta = volume_create_file(&mut volume, 1, "beta.txt").unwrap();
    if !one_by_one {
        assert_eq!(volume_write_file_data(&mut volume, alpha, 0, b"file alpha"), Ok(10));
    }
    assert_eq!(volume_write_file_data(&mut volume, beta, 0, b"file beta"), Ok(9));
    assert_eq!((alpha, beta), (2, 3));
    let (unmounted, disk) = bafs_unmount(volume);
    assert_eq!(unmounted, Ok(()));
    let volume = bafs_mount(disk).unwrap();
    assert_eq!(volume_lookup_directory_entry(&volume, 1, "alpha.txt"), Ok(Some(alpha)));
    assert_eq!(volume_lookup_directory_entry(&volume, 1, "beta.txt"), Ok(Some(beta)));
    assert_eq!(read_all(&volume, alpha, 64), b"file alpha");
    assert_eq!(read_all(&volume, beta, 64), b"file beta");
}

#[test]
fn two_files_written_one_by_one_survive_a_remount() {
    put_two_files(true);
}

#[test]
fn two_files_created_before_they_are_written_survive_a_remount() {
    put_two_files(false);
}

#[test]
fn small_volume_keeps_two_files() {
    let mut volume = new_volume(559);
    for name in ["first", "second"] {
        let file = volume_create_file(&mut volume, 1, name).unwrap();
        assert_eq!(
            volume_write_file_data(&mut volume, file, 0, &[file as u8; 4 * 4096]),
            Ok(4 * 4096)
        );
    }
    let (unmounted, disk) = bafs_unmount(volume);
    assert_eq!(unmounted, Ok(()));
    let volume = bafs_mount(disk).unwrap();
    assert_eq!(read_all(&volume, 2, 20_000), vec![2u8; 4 * 4096]);
    assert_eq!(read_all(&volume, 3, 20_000), vec![3u8; 4 * 4096]);
}

#[test]
fn failed_write_puts_the_superblock_back() {
    let mut volume = new_volume(700);
    let file = volume_create_file(&mut volume, 1, "kept").unwrap();
    assert_eq!(volume_write_file_data(&mut volume, file, 0, b"some data"), Ok(9));
    let superblock = image_of(&volume);
    let next = volume.next_free_block;
    let too_much = vec![7u8; 210 * 4096];
    assert!(volume.superblock.free_block_count > 210);
    assert_eq!(
        volume_write_file_data(&mut volume, file, 4096, &too_much),
        Err(BafsError::OutOfSpace)
    );
    assert_eq!(image_of(&volume), superblock);
    assert!(next < volume.next_free_block);
    assert!(volume.next_free_block <= compute_node_area_end(700));
    assert_eq!(read_all(&volume, file, 64), b"some data");
    assert_eq!(volume_lookup_directory_entry(&volume, 1, "kept"), Ok(Some(file)));
}

#[test]
fn unlinking_that_runs_out_of_nodes_changes_nothing() {
    let mut volume = new_volume(500);
    let file = volume_create_file(&mut volume, 1, "fragments").unwrap();
    let mut count = 0u64;
    while volume.next_free_block + 15 < compute_node_area_end(500) {
        if volume_write_file_data(&mut volume, file, count * 4096, &[1; 10]).is_err() {
            break;
        }
        count = count + 1;
    }
    assert!(count > 5);
    let superblock = image_of(&volume);
    assert_eq!(
        volume_unlink_directory_entry(&mut volume, 1, "fragments"),
        Err(BafsError::OutOfSpace)
    );
    assert_eq!(image_of(&volume), superblock);
    assert_eq!(volume_lookup_directory_entry(&volume, 1, "fragments"), Ok(Some(file)));
    assert_eq!(read_all(&volume, file, 10), vec![1u8; 10]);
}

#[test]
fn damaged_root_node_is_reported_by_every_change() {
    let mut volume = new_volume(2000);
    let file = volume_create_file(&mut volume, 1, "file").unwrap();
    flush_and_commit(&mut volume).unwrap();
    let root = volume.superblock.inode_tree_root_block;
    let mut sector = vec![0u8; 512];
    assert!(volume.device.read_sectors(root * 8 + 7, 1, &mut sector));
    sector[9] = !sector[9];
    assert!(volume.device.write_sectors(root * 8 + 7, 1, &sector));
    let superblock = image_of(&volume);
    let error = BafsError::InvalidChecksum { block_address: root };
    assert_eq!(volume_create_file(&mut volume, 1, "more"), Err(error));
    assert_eq!(volume_write_file_data(&mut volume, file, 0, b"data"), Err(error));
    assert_eq!(volume_unlink_directory_entry(&mut volume, 1, "file"), Err(error));
    assert_eq!(image_of(&volume), superblock);
}

#[test]
fn superseded_blocks_stay_unused() {
    let mut volume = new_volume(2000);
    volume_create_file(&mut volume, 1, "first").unwrap();
    let superseded = volume.superseded_blocks.clone();
    assert!(!superseded.is_empty());
    let free = volume.superblock.free_block_count;
    let next = volume.next_free_block;
    flush_and_commit(&mut volume).unwrap();
    assert!(volume.superseded_blocks.is_empty());
    assert_eq!(volume.superblock.free_block_count, free);
    assert_eq!(volume.next_free_block, next);
    let second = volume_create_file(&mut volume, 1, "second").unwrap();
    volume_write_file_data(&mut volume, second, 0, b"data").unwrap();
    for address in superseded {
        assert!(address < next);
        assert!(!volume.dirty_block_cache.contains_key(&address));
    }
}
