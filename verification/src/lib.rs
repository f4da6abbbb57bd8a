//! BAFS: a copy-on-write, journaled filesystem over a block device.
//!
//! From the top down:
//!
//! - [`volume`] formats, mounts and unmounts volumes, and works on their files
//!   and directories; [`kernel`] offers the same to a kernel, and [`report`] tells
//!   tools about a volume.
//! - [`dir`], [`inode`], [`extent`] and [`checksum_tree`] are the records that a
//!   volume keeps; [`state`] says which of them may stand beside each other, and
//!   [`allocation`] which blocks are taken and freed.
//! - [`btree`] is the copy-on-write tree that holds all records.
//! - [`journal`] commits and recovers; [`crash`] shows that a commit is atomic.
//! - [`superblock`] is where a mount begins.
//! - [`checksum`], [`hash`] and [`bytes`] are the encodings; [`layout`] says where
//!   things lie on disk, [`hash_values`] and [`hash_undone`] what a hash is.
//! - [`block_device`] and [`block_io`] are the disk.

pub mod allocation;
pub mod block_device;
pub mod block_io;
pub mod btree;
pub mod bytes;
pub mod checksum;
pub mod checksum_tree;
pub mod crash;
pub mod dir;
pub mod error;
pub mod extent;
pub mod hash;
pub mod hash_undone;
pub mod hash_values;
pub mod inode;
pub mod journal;
pub mod kernel;
pub mod layout;
pub mod report;
pub mod state;
pub mod superblock;
pub mod volume;

pub use block_device::BlockDevice;
pub use error::BafsError;
pub use volume::{bafs_format, bafs_mount, BafsFormatOptions, BafsVolume};
