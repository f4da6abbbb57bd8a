//! Commits that are cut off, and what the next mount makes of them.

use std::sync::{Arc, Mutex};

use bafs::block_device::BlockDevice;
use bafs::error::BafsError;
use bafs::journal::recover_journal_on_mount;
use bafs::superblock::read_superblock_from_device;
use bafs::volume::{
    bafs_format, bafs_mount, flush_and_commit, volume_create_file, volume_lookup_directory_entry,
    volume_read_file_data, volume_write_file_data, BafsFormatOptions,
};

/// A shared disk that fails every write from a given one on. The first write that
/// fails gets as far as the middle of its first sector.
struct FailingDisk {
    data: Arc<Mutex<Vec<u8>>>,
    writes_left: Option<usize>,
}

impl FailingDisk {
    fn new(block_count: usize) -> Self {
        FailingDisk {
            data: Arc::new(Mutex::new(vec![0u8; block_count * 4096])),
            writes_left: None,
        }
    }

    fn sharing(data: &Arc<Mutex<Vec<u8>>>, writes_left: Option<usize>) -> Self {
        FailingDisk { data: Arc::clone(data), writes_left }
    }
}

impl BlockDevice for FailingDisk {
    fn read_sectors(
        &self,
        start_lba: u64,
        sector_count: u32,
        destination_buffer: &mut [u8],
    ) -> bool {
        let start = start_lba as usize * 512;
        let count = sector_count as usize * 512;
        let data = self.data.lock().unwrap();
        if start + count > data.len() {
            return false;
        }
        destination_buffer[..count].copy_from_slice(&data[start..start + count]);
        true
    }

    fn write_sectors(&mut self, start_lba: u64, sector_count: u32, source_buffer: &[u8]) -> bool {
        let start = start_lba as usize * 512;
        let count = sector_count as usize * 512;
        let mut data = self.data.lock().unwrap();
        if start + count > data.len() {
            return false;
        }
        match self.writes_left {
            Some(0) => return false,
            Some(1) => {
                data[start..start + 256].copy_from_slice(&source_buffer[..256]);
                self.writes_left = Some(0);
                return false;
            }
            Some(left) => self.writes_left = Some(left - 1),
            None => {}
        }
        data[start..start + count].copy_from_slice(&source_buffer[..count]);
        true
    }

    fn total_sector_count(&self) -> u64 {
        self.data.lock().unwrap().len() as u64 / 512
    }

    fn device_name(&self) -> &str {
        "failing disk"
    }
}

/// The bytes of a disk whose volume holds one committed file, "old".
fn committed_image() -> Vec<u8> {
    let mut disk = FailingDisk::new(600);
    bafs_format(&mut disk, BafsFormatOptions::default()).unwrap();
    let data = Arc::clone(&disk.data);
    let mut volume = bafs_mount(disk).unwrap();
    let old = volume_create_file(&mut volume, 1, "old").unwrap();
    volume_write_file_data(&mut volume, old, 0, b"old data").unwrap();
    flush_and_commit(&mut volume).unwrap();
    drop(volume);
    let bytes = data.lock().unwrap().clone();
    bytes
}

#[test]
fn commit_cut_off_anywhere_is_all_or_nothing() {
    let image = committed_image();
    let mut committed = 0;
    let mut not_committed = 0;
    let mut cut_off = 1;
    loop {
        let data = Arc::new(Mutex::new(image.clone()));
        let mut volume = bafs_mount(FailingDisk::sharing(&data, None)).unwrap();
        let new = volume_create_file(&mut volume, 1, "new").unwrap();
        volume_write_file_data(&mut volume, new, 0, b"new data").unwrap();
        volume.device.writes_left = Some(cut_off);
        let result = flush_and_commit(&mut volume);
        drop(volume);

        let volume = bafs_mount(FailingDisk::sharing(&data, None)).unwrap();
        let mut buffer = [0u8; 8];
        assert_eq!(volume_lookup_directory_entry(&volume, 1, "old"), Ok(Some(2)));
        assert_eq!(volume_read_file_data(&volume, 2, 0, &mut buffer), Ok(8));
        assert_eq!(&buffer, b"old data");
        match volume_lookup_directory_entry(&volume, 1, "new").unwrap() {
            Some(inode) => {
                assert_eq!(inode, new);
                assert_eq!(volume_read_file_data(&volume, inode, 0, &mut buffer), Ok(8));
                assert_eq!(&buffer, b"new data");
                committed += 1;
            }
            None => {
                assert_eq!(result, Err(BafsError::InputOutputError));
                not_committed += 1;
            }
        }
        if result.is_ok() {
            break;
        }
        cut_off += 1;
    }
    assert!(committed > 3);
    assert!(not_committed > 3);
}

#[test]
fn recovery_that_is_cut_off_is_carried_out_by_the_next_mount() {
    let image = committed_image();
    let data = Arc::new(Mutex::new(image));
    let mut volume = bafs_mount(FailingDisk::sharing(&data, None)).unwrap();
    let new = volume_create_file(&mut volume, 1, "new").unwrap();
    let blocks = volume.dirty_block_cache.len();
    volume.device.writes_left = Some(blocks + 4);
    assert_eq!(flush_and_commit(&mut volume), Err(BafsError::InputOutputError));
    drop(volume);
    for cut_off in 1..=blocks + 2 {
        let mounted = bafs_mount(FailingDisk::sharing(&data, Some(cut_off)));
        assert_eq!(mounted.err(), Some(BafsError::InputOutputError));
    }
    let volume = bafs_mount(FailingDisk::sharing(&data, None)).unwrap();
    assert_eq!(volume_lookup_directory_entry(&volume, 1, "new"), Ok(Some(new)));
}

#[test]
fn second_recovery_finds_nothing() {
    let data = Arc::new(Mutex::new(committed_image()));
    let mut volume = bafs_mount(FailingDisk::sharing(&data, None)).unwrap();
    let new = volume_create_file(&mut volume, 1, "new").unwrap();
    let blocks = volume.dirty_block_cache.len();
    volume.device.writes_left = Some(blocks + 4);
    assert_eq!(flush_and_commit(&mut volume), Err(BafsError::InputOutputError));
    drop(volume);
    let mut disk = FailingDisk::sharing(&data, None);
    let mut superblock = read_superblock_from_device(&disk, 1).unwrap();
    assert_eq!(superblock.last_committed_transaction_id, 2);
    assert_eq!(recover_journal_on_mount(&mut disk, &mut superblock), Ok(true));
    assert_eq!(superblock.last_committed_transaction_id, 3);
    let recovered = data.lock().unwrap().clone();
    assert_eq!(recover_journal_on_mount(&mut disk, &mut superblock), Ok(false));
    assert_eq!(superblock.last_committed_transaction_id, 3);
    assert!(*data.lock().unwrap() == recovered);
    let volume = bafs_mount(disk).unwrap();
    assert_eq!(volume_lookup_directory_entry(&volume, 1, "new"), Ok(Some(new)));
}

#[test]
fn commit_and_recovery_may_both_be_cut_off_in_a_superblock() {
    let data = Arc::new(Mutex::new(committed_image()));
    let mut volume = bafs_mount(FailingDisk::sharing(&data, None)).unwrap();
    let new = volume_create_file(&mut volume, 1, "new").unwrap();
    let blocks = volume.dirty_block_cache.len();
    let journal_blocks = blocks + 2;
    volume.device.writes_left = Some(journal_blocks + blocks + 1);
    assert_eq!(flush_and_commit(&mut volume), Err(BafsError::InputOutputError));
    drop(volume);
    let mounted = bafs_mount(FailingDisk::sharing(&data, Some(blocks + 2)));
    assert_eq!(mounted.err(), Some(BafsError::InputOutputError));
    let volume = bafs_mount(FailingDisk::sharing(&data, None)).unwrap();
    assert_eq!(volume_lookup_directory_entry(&volume, 1, "new"), Ok(Some(new)));
    assert_eq!(volume_lookup_directory_entry(&volume, 1, "old"), Ok(Some(2)));
}

#[test]
fn format_reports_a_failing_device() {
    let mut disk = FailingDisk::new(600);
    disk.writes_left = Some(100);
    assert_eq!(
        bafs_format(&mut disk, BafsFormatOptions::default()),
        Err(BafsError::InputOutputError)
    );
}
