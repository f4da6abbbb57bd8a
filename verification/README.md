# bafs

BAFS is a copy-on-write, journaled filesystem over a block device, written in
Verus: the library is executable Rust whose contracts are proved.

- **Copy-on-write.** No tree node and no file block is overwritten in place.
- **Checksums on all data and metadata.** Damage is detected when it is read.
- **Atomic commits.** A crash leaves a volume as it was before a commit or as the
  commit was to leave it, however often recovery itself is cut off.
- **B-trees** hold inodes, directory entries, extents, free space and checksums.

## Layout

```
src/block_device.rs   the interface of a device, and a disk in memory
src/block_io.rs       blocks on a device, and writes that are cut off
src/bytes.rs          little-endian fields
src/checksum.rs       CRC32C
src/hash.rs           XXH64
src/superblock.rs     the superblock and its backup
src/btree/            keys, nodes, the model of a tree, its operations, how it grows,
                      how high it gets and which blocks it is made of
src/inode.rs          inode records
src/extent.rs         file extents and the allocator
src/checksum_tree.rs  checksums of data blocks
src/dir.rs            directory entries
src/journal.rs        commit and recovery
src/crash.rs          why a commit is atomic
src/state.rs          what a volume holds, and when that is sound
src/volume/           format, mount, commit; files and directories; their laws, how
                      much a volume takes, and why files outlast an unmount
src/kernel.rs         the volume as a kernel sees it
src/report.rs         what tools tell of a volume
app/                  bafs-tools, a command line tool, and inodes behind a lock
tests/                tests of the library
```

## How to read the contracts

The contents of a volume are a `VolumeState`: maps of records, and the data
blocks. A mounted volume's view is a `VolumeModel`; `in_order` is its invariant,
and `state` gives the contents. Operations are described by how they change the
state, for devices that carry out every request (`reliable`) and for those that
do not. Properties that span operations are the public proof functions whose names
begin with `law_`.

An operation succeeds where there is room for it. How many tree nodes it writes is
bounded by the levels of the trees, and how many levels these get by their fan-out:
`tree::level_bound` grows with the logarithm of the number of insertions. Where work
cannot be finished, the superblock is put back, and the files are as they were.

A device is anything that implements `BlockDevice`. What is proved holds of
devices that keep to the contract of that trait.
