//! Volumes as a kernel and as tools see them.

use bafs::block_device::MemoryDisk;
use bafs::error::BafsError;
use bafs::kernel::{
    bafs_mount_kernel_volume, map_bafs_error_to_fs_error, BafsKernelInode, BafsVolumeHandle,
    FsError, Inode, InodeStat, InodeType,
};
use bafs::report::{is_pattern, pattern_buffer, type_character, volume_usage};
use bafs::volume::{bafs_format, BafsFormatOptions};

fn mounted() -> (BafsVolumeHandle<MemoryDisk>, BafsKernelInode) {
    let mut disk = MemoryDisk::new(8000);
    bafs_format(&mut disk, BafsFormatOptions::default()).unwrap();
    bafs_mount_kernel_volume(disk).unwrap()
}

#[test]
fn root_directory_is_returned_by_the_mount() {
    let (volume, root) = mounted();
    assert_eq!(root.inode_number, 1);
    assert_eq!(root.inode_type(&volume), InodeType::Directory);
    let stat = root.stat(&volume);
    assert_eq!(stat.size, 0);
    assert_eq!(stat.mode, 0o040755);
    assert_eq!(stat.nlinks, 2);
    assert_eq!(
        bafs_mount_kernel_volume(MemoryDisk::new(80)).err(),
        Some(BafsError::InvalidMagicNumber)
    );
}

#[test]
fn files_are_created_written_read_and_removed() {
    let (mut volume, root) = mounted();
    let file = root.create(&mut volume, "file").unwrap();
    assert_eq!(file.inode_type(&volume), InodeType::RegularFile);
    assert_eq!(file.write_at(&mut volume, 0, b"kernel data"), Ok(11));
    assert_eq!(file.stat(&volume).size, 11);
    assert_eq!(file.stat(&volume).mode, 0o100644);
    let mut buffer = [0u8; 6];
    assert_eq!(file.read_at(&volume, 0, &mut buffer), Ok(6));
    assert_eq!(&buffer, b"kernel");
    assert_eq!(root.lookup(&volume, "file").unwrap().inode_number, file.inode_number);
    assert!(root.lookup(&volume, "nothing").is_none());
    let entry = root.readdir(&volume, 0).unwrap();
    assert_eq!(entry.name, "file");
    assert_eq!(entry.inode_type, InodeType::RegularFile);
    assert_eq!(entry.inode_number, file.inode_number);
    assert!(root.readdir(&volume, 1).is_none());
    assert_eq!(root.unlink(&mut volume, "file"), Ok(()));
    assert_eq!(root.unlink(&mut volume, "file"), Err(FsError::NotFound));
    assert_eq!(file.stat(&volume).size, 0);
}

#[test]
fn directories_are_created_and_must_be_empty_to_go() {
    let (mut volume, root) = mounted();
    let directory = root.mkdir(&mut volume, "directory").unwrap();
    assert_eq!(directory.inode_type(&volume), InodeType::Directory);
    assert_eq!(root.readdir(&volume, 0).unwrap().inode_type, InodeType::Directory);
    directory.create(&mut volume, "inner").unwrap();
    assert_eq!(root.unlink(&mut volume, "directory"), Err(FsError::DirectoryNotEmpty));
    assert_eq!(directory.unlink(&mut volume, "inner"), Ok(()));
    assert_eq!(root.unlink(&mut volume, "directory"), Ok(()));
}

#[test]
fn what_is_not_supported_says_so() {
    let (mut volume, root) = mounted();
    let file = root.create(&mut volume, "file").unwrap();
    assert_eq!(file.truncate(&mut volume, 0), Err(FsError::NotSupported));
    assert_eq!(root.set_mode(&mut volume, 0o700), Ok(()));
    assert_eq!(root.link_child(&mut volume, "second", file), Err(FsError::NotSupported));
    assert_eq!(root.write_at(&mut volume, 0, b"x"), Err(FsError::NotSupported));
    assert_eq!(file.create(&mut volume, "x").err(), Some(FsError::NotDirectory));
    assert_eq!(root.create(&mut volume, "").err(), Some(FsError::InvalidArgument));
    assert_eq!(root.create(&mut volume, "file").err(), Some(FsError::AlreadyExists));
}

#[test]
fn errors_have_posix_numbers() {
    let numbers = [
        (FsError::NotSupported, -38),
        (FsError::NotFound, -2),
        (FsError::NotDirectory, -20),
        (FsError::AlreadyExists, -17),
        (FsError::DirectoryNotEmpty, -39),
        (FsError::OutOfMemory, -12),
        (FsError::IoError, -5),
        (FsError::PermissionDenied, -13),
        (FsError::BrokenPipe, -32),
        (FsError::WouldBlock, -11),
        (FsError::TooManyLinks, -31),
        (FsError::InvalidArgument, -22),
    ];
    for (error, number) in numbers {
        assert_eq!(error.to_errno(), number);
    }
}

#[test]
fn filesystem_errors_become_kernel_errors() {
    let pairs = [
        (BafsError::NotFound, FsError::NotFound),
        (BafsError::AlreadyExists, FsError::AlreadyExists),
        (BafsError::NotADirectory, FsError::NotDirectory),
        (BafsError::NotARegularFile, FsError::NotSupported),
        (BafsError::OutOfSpace, FsError::OutOfMemory),
        (BafsError::DirectoryNotEmpty, FsError::DirectoryNotEmpty),
        (BafsError::InvalidArgument, FsError::InvalidArgument),
        (BafsError::InputOutputError, FsError::IoError),
        (BafsError::InvalidChecksum { block_address: 1 }, FsError::IoError),
        (BafsError::CorruptedStructure, FsError::IoError),
        (BafsError::InvalidMagicNumber, FsError::IoError),
        (BafsError::UnsupportedVersion { found_version: 2 }, FsError::IoError),
        (BafsError::NotSupported, FsError::IoError),
    ];
    for (error, expected) in pairs {
        assert_eq!(map_bafs_error_to_fs_error(error), expected);
    }
}

#[test]
fn metadata_has_the_usual_modes() {
    let file = InodeStat::regular(5, 70);
    assert_eq!((file.inode_number, file.size, file.mode, file.nlinks), (5, 70, 0o100644, 1));
    let directory = InodeStat::directory(6);
    assert_eq!(
        (directory.inode_number, directory.size, directory.mode, directory.nlinks),
        (6, 0, 0o040755, 2)
    );
}

#[test]
fn usage_is_counted_in_bytes() {
    let (volume, _root) = mounted();
    let mut superblock = volume.inner.superblock;
    let usage = volume_usage(&superblock).unwrap();
    assert_eq!(usage.total_bytes, 1000 * 4096);
    assert_eq!(usage.journal_bytes, 256 * 4096);
    assert_eq!(usage.used_bytes + usage.free_bytes, usage.total_bytes);
    superblock.free_block_count = 2000;
    assert_eq!(volume_usage(&superblock).unwrap().used_bytes, 0);
    superblock.free_block_count = u64::MAX;
    assert!(volume_usage(&superblock).is_none());
}

#[test]
fn listing_and_pattern_helpers() {
    assert_eq!(type_character(4), 'd');
    assert_eq!(type_character(8), '-');
    assert_eq!(type_character(10), '?');
    let buffer = pattern_buffer(600);
    assert_eq!(buffer[255], 255);
    assert_eq!(buffer[256], 0);
    assert!(is_pattern(&buffer));
    let mut changed = buffer.clone();
    changed[599] = 0;
    assert!(!is_pattern(&changed));
}
