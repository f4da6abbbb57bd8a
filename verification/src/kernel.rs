//! The volume as a kernel sees it: through inodes that are files or directories.
//!
//! All inodes of a volume share one [`BafsVolumeHandle`], which every operation
//! takes along.

use vstd::prelude::*;
use crate::block_device::BlockDevice;
use crate::block_io;
use crate::btree::store;
use crate::dir;
use crate::dir::CHILD_TYPE_DIRECTORY;
use crate::error::BafsError;
use crate::inode::{BafsInode, INODE_MODE_DIRECTORY, INODE_MODE_REGULAR_FILE};
use crate::state;
use crate::volume;
use crate::volume::bytewise;
use crate::volume::model as volume_model;
use crate::volume::mounting;
use crate::volume::naming;
use crate::volume::reading;
use crate::volume::refusals;
use crate::volume::unlinking;
use crate::volume::writing;
use crate::volume::{
    bafs_mount, volume_create_directory, volume_create_file, volume_lookup_directory_entry,
    volume_read_directory_entry_at_index, volume_read_file_data, volume_read_inode,
    volume_unlink_directory_entry, volume_write_file_data, BafsVolume, VolumeModel,
};

verus! {

/// What kind of thing an inode stands for.
#[derive(Clone, Copy, PartialEq, Eq, Debug, Structural)]
pub enum InodeType {
    RegularFile,
    Directory,
    CharDevice,
    Fifo,
    Symlink,
}

/// What is known of an inode.
#[derive(Clone, Copy, Debug)]
pub struct InodeStat {
    /// The inode's number.
    pub inode_number: u64,
    /// The size in bytes.
    pub size: u64,
    /// Type and permissions.
    pub mode: u64,
    /// Number of links.
    pub nlinks: u64,
}

/// The metadata of a regular file.
pub open spec fn regular_stat(inode_number: u64, size: u64) -> InodeStat {
    InodeStat { inode_number, size, mode: 0o100644, nlinks: 1 }
}

/// The metadata of a directory.
pub open spec fn directory_stat(inode_number: u64) -> InodeStat {
    InodeStat { inode_number, size: 0, mode: 0o040755, nlinks: 2 }
}

impl InodeStat {
    /// The metadata of a regular file.
    pub fn regular(inode_number: u64, size: u64) -> (stat: InodeStat)
        ensures
            stat == regular_stat(inode_number, size),
    {
        assert((0o100000u32 | 0o644) == 0o100644) by (bit_vector);
        InodeStat {
            inode_number,
            size,
            mode: (INODE_MODE_REGULAR_FILE | 0o644) as u64,
            nlinks: 1,
        }
    }

    /// The metadata of a directory.
    pub fn directory(inode_number: u64) -> (stat: InodeStat)
        ensures
            stat == directory_stat(inode_number),
    {
        assert((0o040000u32 | 0o755) == 0o040755) by (bit_vector);
        InodeStat {
            inode_number,
            size: 0,
            mode: (INODE_MODE_DIRECTORY | 0o755) as u64,
            nlinks: 2,
        }
    }
}

/// An entry of a directory.
#[derive(Clone, Debug)]
pub struct DirEntry {
    /// The name.
    pub name: String,
    /// What the name stands for.
    pub inode_type: InodeType,
    /// The inode that the name stands for.
    pub inode_number: u64,
}

/// The errors that a kernel knows.
#[derive(Clone, Copy, PartialEq, Eq, Debug, Structural)]
pub enum FsError {
    NotSupported,
    NotFound,
    NotDirectory,
    AlreadyExists,
    DirectoryNotEmpty,
    OutOfMemory,
    IoError,
    PermissionDenied,
    BrokenPipe,
    WouldBlock,
    TooManyLinks,
    InvalidArgument,
}

impl FsError {
    /// The POSIX error number, negated.
    pub open spec fn errno(self) -> int {
        match self {
            FsError::NotSupported => -38,
            FsError::NotFound => -2,
            FsError::NotDirectory => -20,
            FsError::AlreadyExists => -17,
            FsError::DirectoryNotEmpty => -39,
            FsError::OutOfMemory => -12,
            FsError::IoError => -5,
            FsError::PermissionDenied => -13,
            FsError::BrokenPipe => -32,
            FsError::WouldBlock => -11,
            FsError::TooManyLinks => -31,
            FsError::InvalidArgument => -22,
        }
    }

    /// The POSIX error number, negated.
    pub fn to_errno(self) -> (number: i64)
        ensures
            number == self.errno(),
    {
        match self {
            FsError::NotSupported => -38,
            FsError::NotFound => -2,
            FsError::NotDirectory => -20,
            FsError::AlreadyExists => -17,
            FsError::DirectoryNotEmpty => -39,
            FsError::OutOfMemory => -12,
            FsError::IoError => -5,
            FsError::PermissionDenied => -13,
            FsError::BrokenPipe => -32,
            FsError::WouldBlock => -11,
            FsError::TooManyLinks => -31,
            FsError::InvalidArgument => -22,
        }
    }
}

/// The kernel's error for an error of the filesystem.
pub open spec fn fs_error(error: BafsError) -> FsError {
    match error {
        BafsError::NotFound => FsError::NotFound,
        BafsError::AlreadyExists => FsError::AlreadyExists,
        BafsError::NotADirectory => FsError::NotDirectory,
        BafsError::NotARegularFile => FsError::NotSupported,
        BafsError::OutOfSpace => FsError::OutOfMemory,
        BafsError::DirectoryNotEmpty => FsError::DirectoryNotEmpty,
        BafsError::InvalidArgument => FsError::InvalidArgument,
        _ => FsError::IoError,
    }
}

/// The kernel's result for a result of the filesystem.
pub open spec fn fs_result<T>(result: Result<T, BafsError>) -> Result<T, FsError> {
    match result {
        Ok(value) => Ok(value),
        Err(error) => Err(fs_error(error)),
    }
}

/// The kernel's error for an error of the filesystem.
pub fn map_bafs_error_to_fs_error(bafs_error: BafsError) -> (error: FsError)
    ensures
        error == fs_error(bafs_error),
{
    match bafs_error {
        BafsError::NotFound => FsError::NotFound,
        BafsError::AlreadyExists => FsError::AlreadyExists,
        BafsError::NotADirectory => FsError::NotDirectory,
        BafsError::NotARegularFile => FsError::NotSupported,
        BafsError::OutOfSpace => FsError::OutOfMemory,
        BafsError::DirectoryNotEmpty => FsError::DirectoryNotEmpty,
        BafsError::InvalidArgument => FsError::InvalidArgument,
        _ => FsError::IoError,
    }
}

/// A mounted volume, as its inodes share it.
pub struct BafsVolumeHandle<D: BlockDevice> {
    /// The volume.
    pub inner: BafsVolume<D>,
}

impl<D: BlockDevice> View for BafsVolumeHandle<D> {
    type V = VolumeModel;

    open spec fn view(&self) -> VolumeModel {
        self.inner@
    }
}

impl<D: BlockDevice> BafsVolumeHandle<D> {
    /// The blocks that are not committed yet have the size of a block.
    pub open spec fn ready(self) -> bool {
        store::cache_valid(self.inner.dirty_block_cache@)
    }

    /// Whether the device carries out every request.
    pub open spec fn reliable(self) -> bool {
        self.inner.device.reliable()
    }

    /// Share a volume.
    pub fn new(volume: BafsVolume<D>) -> (handle: BafsVolumeHandle<D>)
        ensures
            handle.inner == volume,
    {
        BafsVolumeHandle { inner: volume }
    }
}

/// What a kernel asks of an inode.
pub trait Inode<D: BlockDevice>: Send + Sync + Sized {
    /// What the inode stands for.
    fn inode_type(&self, volume: &BafsVolumeHandle<D>) -> (inode_type: InodeType)
        requires
            volume.ready(),
    ;

    /// What is known of the inode.
    fn stat(&self, volume: &BafsVolumeHandle<D>) -> (stat: InodeStat)
        requires
            volume.ready(),
    ;

    /// Read from a file into the start of `buf`. Returns how many bytes were read.
    fn read_at(&self, volume: &BafsVolumeHandle<D>, offset: u64, buf: &mut [u8]) -> (result: Result<
        usize,
        FsError,
    >)
        requires
            volume.ready(),
    ;

    /// Write to a file. Returns how many bytes were written.
    fn write_at(&self, volume: &mut BafsVolumeHandle<D>, offset: u64, buf: &[u8]) -> (result: Result<
        usize,
        FsError,
    >)
        requires
            old(volume).ready(),
            offset + buf@.len() <= u64::MAX,
        ensures
            final(volume).ready(),
    ;

    /// Change the size of a file.
    fn truncate(&self, volume: &mut BafsVolumeHandle<D>, new_size: u64) -> (result: Result<
        (),
        FsError,
    >)
        requires
            old(volume).ready(),
        ensures
            final(volume).ready(),
    ;

    /// Look up a name in a directory.
    fn lookup(&self, volume: &BafsVolumeHandle<D>, name: &str) -> (found: Option<Self>)
        requires
            volume.ready(),
    ;

    /// The entry of a directory at `index`.
    fn readdir(&self, volume: &BafsVolumeHandle<D>, index: usize) -> (entry: Option<DirEntry>)
        requires
            volume.ready(),
    ;

    /// Create a file in a directory.
    fn create(&self, volume: &mut BafsVolumeHandle<D>, name: &str) -> (result: Result<Self, FsError>)
        requires
            old(volume).ready(),
        ensures
            final(volume).ready(),
    ;

    /// Create a directory in a directory.
    fn mkdir(&self, volume: &mut BafsVolumeHandle<D>, name: &str) -> (result: Result<Self, FsError>)
        requires
            old(volume).ready(),
        ensures
            final(volume).ready(),
    ;

    /// Remove a name from a directory.
    fn unlink(&self, volume: &mut BafsVolumeHandle<D>, name: &str) -> (result: Result<(), FsError>)
        requires
            old(volume).ready(),
        ensures
            final(volume).ready(),
    ;

    /// Change the permissions. Where an inode has none, nothing is done.
    fn set_mode(&self, volume: &mut BafsVolumeHandle<D>, mode: u64) -> (result: Result<(), FsError>)
        requires
            old(volume).ready(),
        ensures
            final(volume).ready(),
        default_ensures
            result == Ok::<(), FsError>(()),
            *final(volume) == *old(volume),
    {
        let _ = mode;
        let _ = volume;
        Ok(())
    }

    /// Give an inode one more name, where that is supported.
    fn link_child(&self, volume: &mut BafsVolumeHandle<D>, name: &str, child: Self) -> (result: Result<
        (),
        FsError,
    >)
        requires
            old(volume).ready(),
        ensures
            final(volume).ready(),
        default_ensures
            result == Err::<(), FsError>(FsError::NotSupported),
            *final(volume) == *old(volume),
    {
        let _ = name;
        let _ = volume;
        let _ = child;
        Err(FsError::NotSupported)
    }
}

/// An inode of a mounted volume.
#[derive(Clone, Copy, Debug)]
pub struct BafsKernelInode {
    /// The inode's number.
    pub inode_number: u64,
}

/// What an inode stands for. One that cannot be read counts as a regular file.
pub open spec fn type_of(inode: Result<BafsInode, BafsError>) -> InodeType {
    match inode {
        Ok(inode) => if inode.spec_is_directory() {
            InodeType::Directory
        } else {
            InodeType::RegularFile
        },
        Err(_) => InodeType::RegularFile,
    }
}

/// What is known of an inode. One that cannot be read counts as an empty file.
pub open spec fn stat_of(inode: Result<BafsInode, BafsError>, inode_number: u64) -> InodeStat {
    match inode {
        Ok(inode) => if inode.spec_is_directory() {
            directory_stat(inode_number)
        } else {
            regular_stat(inode_number, inode.file_size_in_bytes)
        },
        Err(_) => regular_stat(inode_number, 0),
    }
}

/// What a directory entry's kind stands for.
pub open spec fn type_of_child(child_type: u8) -> InodeType {
    if child_type == CHILD_TYPE_DIRECTORY {
        InodeType::Directory
    } else {
        InodeType::RegularFile
    }
}

impl<D: BlockDevice> Inode<D> for BafsKernelInode {
    fn inode_type(&self, volume: &BafsVolumeHandle<D>) -> (inode_type: InodeType)
        ensures
            inode_type == type_of(volume::inode_in(volume@, self.inode_number)) || !volume.reliable()
                && inode_type == InodeType::RegularFile,
    {
        match volume_read_inode(&volume.inner, self.inode_number) {
            Ok(inode) => if inode.is_directory() {
                InodeType::Directory
            } else {
                InodeType::RegularFile
            },
            Err(_) => InodeType::RegularFile,
        }
    }

    fn stat(&self, volume: &BafsVolumeHandle<D>) -> (stat: InodeStat)
        ensures
            stat == stat_of(volume::inode_in(volume@, self.inode_number), self.inode_number)
                || !volume.reliable() && stat == regular_stat(self.inode_number, 0),
    {
        match volume_read_inode(&volume.inner, self.inode_number) {
            Ok(inode) => if inode.is_directory() {
                InodeStat::directory(self.inode_number)
            } else {
                InodeStat::regular(self.inode_number, inode.file_size_in_bytes)
            },
            Err(_) => InodeStat::regular(self.inode_number, 0),
        }
    }

    fn read_at(&self, volume: &BafsVolumeHandle<D>, offset: u64, buf: &mut [u8]) -> (result: Result<
        usize,
        FsError,
    >)
        ensures
            final(buf)@.len() == old(buf)@.len(),
            ({
                let expected = reading::file_read(
                    volume@,
                    self.inode_number,
                    offset,
                    old(buf)@.len(),
                );
                match result {
                    Ok(count) => {
                        &&& expected is Ok
                        &&& count == expected->Ok_0.len()
                        &&& final(buf)@ == expected->Ok_0 + old(buf)@.skip(count as int)
                    },
                    Err(error) => expected matches Err(cause) && error == fs_error(cause) || error
                        == FsError::IoError && !volume.reliable(),
                }
            }),
    {
        match volume_read_file_data(&volume.inner, self.inode_number, offset, buf) {
            Ok(count) => Ok(count),
            Err(error) => Err(map_bafs_error_to_fs_error(error)),
        }
    }

    fn write_at(&self, volume: &mut BafsVolumeHandle<D>, offset: u64, buf: &[u8]) -> (result: Result<
        usize,
        FsError,
    >)
        ensures
            final(volume).reliable() == old(volume).reliable(),
            exists|first: int| #[trigger]
                volume_model::worked_on(
                    old(volume)@,
                    final(volume)@,
                    first,
                    block_io::blocks_for(buf@.len()),
                ),
            exists|cause: Result<usize, BafsError>|
                result == fs_result(cause) && #[trigger] writing::write_outcome(
                    old(volume)@,
                    final(volume)@,
                    old(volume).reliable(),
                    self.inode_number,
                    offset,
                    buf@,
                    cause,
                ),
    {
        let ghost before = volume@;
        let written = volume_write_file_data(&mut volume.inner, self.inode_number, offset, buf);
        assert(writing::write_outcome(
            before,
            volume@,
            old(volume).reliable(),
            self.inode_number,
            offset,
            buf@,
            written,
        ));
        match written {
            Ok(count) => Ok(count),
            Err(error) => Err(map_bafs_error_to_fs_error(error)),
        }
    }

    fn truncate(&self, volume: &mut BafsVolumeHandle<D>, new_size: u64) -> (result: Result<
        (),
        FsError,
    >)
        ensures
            result == Err::<(), FsError>(FsError::NotSupported),
            *final(volume) == *old(volume),
    {
        let _ = volume;
        let _ = new_size;
        Err(FsError::NotSupported)
    }

    fn lookup(&self, volume: &BafsVolumeHandle<D>, name: &str) -> (found: Option<Self>)
        ensures
            ({
                let expected = reading::lookup_in(volume@, self.inode_number, name@);
                match found {
                    Some(inode) => expected == Ok::<Option<u64>, BafsError>(
                        Some(inode.inode_number),
                    ),
                    None => !(expected matches Ok(Some(_))) || !volume.reliable(),
                }
            }),
    {
        match volume_lookup_directory_entry(&volume.inner, self.inode_number, name) {
            Ok(Some(inode_number)) => Some(BafsKernelInode { inode_number }),
            _ => None,
        }
    }

    fn readdir(&self, volume: &BafsVolumeHandle<D>, index: usize) -> (entry: Option<DirEntry>)
        ensures
            ({
                let expected = dir::directory_entry_at(
                    volume@.blocks(),
                    volume@.superblock.inode_tree_root_block,
                    self.inode_number,
                    index as int,
                );
                match entry {
                    Some(entry) => expected matches Ok(Some(found)) && entry.name@ == found.filename
                        && entry.inode_number == found.child_inode_number && entry.inode_type
                        == type_of_child(found.child_type),
                    None => !(expected matches Ok(Some(_))) || !volume.reliable(),
                }
            }),
    {
        match volume_read_directory_entry_at_index(&volume.inner, self.inode_number, index) {
            Ok(Some(entry)) => {
                let inode_type = if entry.child_type == CHILD_TYPE_DIRECTORY {
                    InodeType::Directory
                } else {
                    InodeType::RegularFile
                };
                Some(
                    DirEntry {
                        name: entry.filename,
                        inode_type,
                        inode_number: entry.child_inode_number,
                    },
                )
            },
            _ => None,
        }
    }

    fn create(&self, volume: &mut BafsVolumeHandle<D>, name: &str) -> (result: Result<Self, FsError>)
        ensures
            final(volume).reliable() == old(volume).reliable(),
            volume_model::worked_on(old(volume)@, final(volume)@, 0, 0),
            exists|cause: Result<u64, BafsError>|
                inode_result(result) == fs_result(cause) && #[trigger] naming::create_outcome(
                    old(volume)@,
                    final(volume)@,
                    old(volume).reliable(),
                    self.inode_number,
                    name@,
                    naming::new_file(),
                    cause,
                ),
    {
        let ghost before = volume@;
        let created = volume_create_file(&mut volume.inner, self.inode_number, name);
        assert(naming::create_outcome(
            before,
            volume@,
            old(volume).reliable(),
            self.inode_number,
            name@,
            naming::new_file(),
            created,
        ));
        match created {
            Ok(inode_number) => Ok(BafsKernelInode { inode_number }),
            Err(error) => Err(map_bafs_error_to_fs_error(error)),
        }
    }

    fn mkdir(&self, volume: &mut BafsVolumeHandle<D>, name: &str) -> (result: Result<Self, FsError>)
        ensures
            final(volume).reliable() == old(volume).reliable(),
            volume_model::worked_on(old(volume)@, final(volume)@, 0, 0),
            exists|cause: Result<u64, BafsError>|
                inode_result(result) == fs_result(cause) && #[trigger] naming::create_outcome(
                    old(volume)@,
                    final(volume)@,
                    old(volume).reliable(),
                    self.inode_number,
                    name@,
                    naming::new_directory(),
                    cause,
                ),
    {
        let ghost before = volume@;
        let created = volume_create_directory(&mut volume.inner, self.inode_number, name);
        assert(naming::create_outcome(
            before,
            volume@,
            old(volume).reliable(),
            self.inode_number,
            name@,
            naming::new_directory(),
            created,
        ));
        match created {
            Ok(inode_number) => Ok(BafsKernelInode { inode_number }),
            Err(error) => Err(map_bafs_error_to_fs_error(error)),
        }
    }

    fn unlink(&self, volume: &mut BafsVolumeHandle<D>, name: &str) -> (result: Result<(), FsError>)
        ensures
            final(volume).reliable() == old(volume).reliable(),
            volume_model::worked_on(old(volume)@, final(volume)@, 0, 0),
            exists|cause: Result<(), BafsError>|
                result == fs_result(cause) && #[trigger] unlinking::removal_outcome(
                    old(volume)@,
                    final(volume)@,
                    old(volume).reliable(),
                    self.inode_number,
                    name@,
                    cause,
                ),
    {
        let ghost before = volume@;
        let removed = volume_unlink_directory_entry(&mut volume.inner, self.inode_number, name);
        assert(unlinking::removal_outcome(
            before,
            volume@,
            old(volume).reliable(),
            self.inode_number,
            name@,
            removed,
        ));
        match removed {
            Ok(_) => Ok(()),
            Err(error) => Err(map_bafs_error_to_fs_error(error)),
        }
    }
}

/// The inode number that an operation returned.
pub open spec fn inode_result(result: Result<BafsKernelInode, FsError>) -> Result<u64, FsError> {
    match result {
        Ok(inode) => Ok(inode.inode_number),
        Err(error) => Err(error),
    }
}

/// Mount the volume on `device`. Returns the volume and its root directory.
pub fn bafs_mount_kernel_volume<D: BlockDevice>(device: D) -> (result: Result<
    (BafsVolumeHandle<D>, BafsKernelInode),
    BafsError,
>)
    ensures
        match result {
            Ok((handle, root)) => {
                &&& handle.ready()
                &&& handle.reliable() == device.reliable()
                &&& root.inode_number == handle@.superblock.root_inode_number
                &&& mounting::mount_outcome(device.contents(), device.reliable(), Ok(handle@))
            },
            Err(error) => mounting::mount_outcome(
                device.contents(),
                device.reliable(),
                Err(error),
            ),
        },
{
    match bafs_mount(device) {
        Ok(volume) => {
            let root = BafsKernelInode { inode_number: volume.superblock.root_inode_number };
            Ok((BafsVolumeHandle::new(volume), root))
        },
        Err(error) => Err(error),
    }
}

/// What a kernel is told of an inode: its own number; the type and permissions of a
/// directory, or those of a regular file with the file's size.
pub proof fn law_stat_tells_the_inode(volume: VolumeModel, inode_number: u64)
    ensures
        ({
            let stat = stat_of(volume::inode_in(volume, inode_number), inode_number);
            let kind = type_of(volume::inode_in(volume, inode_number));
            &&& stat.inode_number == inode_number
            &&& match volume::inode_in(volume, inode_number) {
                Ok(inode) => if inode.posix_mode & 0o170000 == 0o040000 {
                    &&& kind == InodeType::Directory
                    &&& stat.mode == 0o040755
                    &&& stat.size == 0
                    &&& stat.nlinks == 2
                } else {
                    &&& kind == InodeType::RegularFile
                    &&& stat.mode == 0o100644
                    &&& stat.size == inode.file_size_in_bytes
                    &&& stat.nlinks == 1
                },
                Err(_) => {
                    &&& kind == InodeType::RegularFile
                    &&& stat.mode == 0o100644
                    &&& stat.size == 0
                    &&& stat.nlinks == 1
                },
            }
        }),
{
}

/// A directory entry is told to stand for a directory where it has the one kind that
/// says so, and for a file where it has any other.
pub proof fn law_one_kind_is_a_directory(child_type: u8)
    ensures
        type_of_child(child_type) == InodeType::Directory <==> child_type == 4,
        type_of_child(child_type) == InodeType::RegularFile <==> child_type != 4,
{
}

/// The kind of a new child that its directory's entry tells is the one that the child
/// itself tells, and it is a directory where one was asked for.
pub proof fn law_entry_tells_the_childs_type(
    before: VolumeModel,
    after: VolumeModel,
    reliable: bool,
    directory: u64,
    name: Seq<char>,
    is_directory: bool,
    number: u64,
)
    requires
        before.in_order(),
        naming::create_outcome(
            before,
            after,
            reliable,
            directory,
            name,
            naming::new_child(is_directory),
            Ok(number),
        ),
    ensures
        state::entry_of(after.state(), directory, name) is Some,
        ({
            let entry = state::entry_of(after.state(), directory, name)->Some_0;
            let kind = type_of_child(entry.child_type);
            &&& entry.child_inode_number == number
            &&& kind == type_of(volume::inode_in(after, number))
            &&& kind == InodeType::Directory <==> is_directory
        }),
{
    refusals::law_created_child_is_new_and_empty(
        before,
        after,
        reliable,
        directory,
        name,
        is_directory,
        number,
        Seq::empty(),
    );
    refusals::law_lookup_is_refused(after, directory, name);
    assert((0o100644u32 & 0o170000) == 0o100000) by (bit_vector);
    assert((0o040755u32 & 0o170000) == 0o040000) by (bit_vector);
}

/// The size that a kernel is told of a regular file is its length: a read below it
/// gives at least one byte, unless it fails, and no more than are left; a read from it
/// on gives none.
pub proof fn law_stat_size_is_where_reading_ends(
    volume: VolumeModel,
    inode_number: u64,
    offset: u64,
    length: nat,
)
    requires
        volume.in_order(),
        volume::inode_in(volume, inode_number) is Ok,
        volume::inode_in(volume, inode_number)->Ok_0.posix_mode & 0o170000 == 0o100000,
        length > 0,
    ensures
        ({
            let size = stat_of(volume::inode_in(volume, inode_number), inode_number).size;
            let found = reading::file_read(volume, inode_number, offset, length);
            &&& offset < size && found is Ok ==> 1 <= found->Ok_0.len() <= size - offset
            &&& offset < size && found is Ok && offset + length >= size ==> found->Ok_0.len()
                == size - offset
            &&& offset >= size ==> found == Ok::<Seq<u8>, BafsError>(Seq::empty())
        }),
{
    let mode = volume::inode_in(volume, inode_number)->Ok_0.posix_mode;
    assert(mode & 0o170000 == 0o100000 ==> mode & 0o170000 != 0o040000) by (bit_vector);
    if reading::file_read(volume, inode_number, offset, length) is Ok {
        bytewise::law_read_is_bytewise(volume, inode_number, offset, length, offset);
    }
}

/// After some bytes were written to a file, the size that a kernel is told is the one
/// before or the end of what was written, whichever is greater.
pub proof fn law_stat_size_after_write(
    before: VolumeModel,
    after: VolumeModel,
    reliable: bool,
    inode_number: u64,
    offset: u64,
    data: Seq<u8>,
    outcome: Result<usize, BafsError>,
)
    requires
        before.in_order(),
        data.len() > 0,
        offset + data.len() <= u64::MAX,
        outcome is Ok,
        writing::write_outcome(before, after, reliable, inode_number, offset, data, outcome),
    ensures
        ({
            let was = stat_of(volume::inode_in(before, inode_number), inode_number).size;
            let is = stat_of(volume::inode_in(after, inode_number), inode_number).size;
            &&& was <= offset + data.len() ==> is == offset + data.len()
            &&& was >= offset + data.len() ==> is == was
        }),
{
    let _ = bytewise::lemma_written(
        before,
        after,
        reliable,
        inode_number,
        offset,
        data,
        outcome,
    );
    let mode = volume::inode_in(before, inode_number)->Ok_0.posix_mode;
    let new_mode = volume::inode_in(after, inode_number)->Ok_0.posix_mode;
    assert(mode & 0o170000 == 0o100000 ==> mode & 0o170000 != 0o040000) by (bit_vector);
    assert(new_mode & 0o170000 == 0o100000 ==> new_mode & 0o170000 != 0o040000) by (bit_vector);
}

/// A kernel tells the filesystem's errors apart as far as it knows them: each of them
/// stands for one error, but for the one for which all the others stand.
pub proof fn law_errors_are_told_apart(error: BafsError)
    ensures
        fs_error(error) == FsError::NotFound <==> error == BafsError::NotFound,
        fs_error(error) == FsError::AlreadyExists <==> error == BafsError::AlreadyExists,
        fs_error(error) == FsError::NotDirectory <==> error == BafsError::NotADirectory,
        fs_error(error) == FsError::NotSupported <==> error == BafsError::NotARegularFile,
        fs_error(error) == FsError::OutOfMemory <==> error == BafsError::OutOfSpace,
        fs_error(error) == FsError::DirectoryNotEmpty <==> error == BafsError::DirectoryNotEmpty,
        fs_error(error) == FsError::InvalidArgument <==> error == BafsError::InvalidArgument,
        fs_error(error) == FsError::IoError <==> error == BafsError::InputOutputError || error
            == BafsError::InvalidMagicNumber || error == BafsError::CorruptedStructure || error
            == BafsError::NotSupported || error is InvalidChecksum || error is UnsupportedVersion,
{
}

/// No two of the kernel's errors have the same number, and all numbers are negative:
/// those that POSIX gives them.
pub proof fn law_error_numbers_differ(left: FsError, right: FsError)
    ensures
        left.errno() < 0,
        left != right ==> left.errno() != right.errno(),
        left.errno() == -2 <==> left == FsError::NotFound,
        left.errno() == -5 <==> left == FsError::IoError,
        left.errno() == -11 <==> left == FsError::WouldBlock,
        left.errno() == -12 <==> left == FsError::OutOfMemory,
        left.errno() == -13 <==> left == FsError::PermissionDenied,
        left.errno() == -17 <==> left == FsError::AlreadyExists,
        left.errno() == -20 <==> left == FsError::NotDirectory,
        left.errno() == -22 <==> left == FsError::InvalidArgument,
        left.errno() == -31 <==> left == FsError::TooManyLinks,
        left.errno() == -32 <==> left == FsError::BrokenPipe,
        left.errno() == -38 <==> left == FsError::NotSupported,
        left.errno() == -39 <==> left == FsError::DirectoryNotEmpty,
{
}

/// What an operation gives a kernel: what it gave the filesystem, or the kernel's error
/// for that of the filesystem.
pub proof fn law_results_are_passed_on(
    result: Result<u64, BafsError>,
    inode: Result<BafsKernelInode, FsError>,
)
    ensures
        match fs_result(result) {
            Ok(value) => result == Ok::<u64, BafsError>(value),
            Err(error) => result matches Err(cause) && error == fs_error(cause),
        },
        inode_result(inode) == fs_result(result) ==> {
            &&& inode is Ok == result is Ok
            &&& inode matches Ok(inode) ==> inode.inode_number == result->Ok_0
        },
{
}

} // verus!
