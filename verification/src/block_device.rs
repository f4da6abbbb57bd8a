//! The block device interface that all I/O goes through.

use vstd::prelude::*;

verus! {

/// Whether the sectors `start_lba .. start_lba + sector_count` lie on a device
/// that holds `contents`.
pub open spec fn sectors_in_range(contents: Seq<u8>, start_lba: u64, sector_count: u32) -> bool {
    (start_lba + sector_count) * 512 <= contents.len()
}

/// `contents` with the bytes from `offset` on replaced by `data`.
pub open spec fn overwrite(contents: Seq<u8>, offset: int, data: Seq<u8>) -> Seq<u8> {
    contents.take(offset) + data + contents.skip(offset + data.len())
}

/// `after` differs from `before` at most in the bytes `start .. end`.
pub open spec fn unchanged_outside(
    before: Seq<u8>,
    after: Seq<u8>,
    start: int,
    end: int,
) -> bool {
    &&& before.len() == after.len()
    &&& forall|i: int|
        0 <= i < before.len() && !(start <= i < end) ==> #[trigger] after[i] == before[i]
}

/// A raw storage device that is read and written in sectors of 512 bytes.
///
/// A write that fails may leave its own sectors in any state, as a power loss
/// would; it leaves all others as they were.
pub trait BlockDevice: Send + Sync {
    /// All bytes that the device holds. Every device that is verified says what
    /// they are.
    open spec fn contents(&self) -> Seq<u8> {
        Seq::empty()
    }

    /// Whether the device carries out every request that lies within its
    /// capacity.
    open spec fn reliable(&self) -> bool {
        false
    }

    /// Read `sector_count` sectors, from `start_lba` on, into the start of
    /// `destination_buffer`. Returns whether the device reported success.
    fn read_sectors(
        &self,
        start_lba: u64,
        sector_count: u32,
        destination_buffer: &mut [u8],
    ) -> (ok: bool)
        requires
            old(destination_buffer)@.len() >= sector_count * 512,
        ensures
            final(destination_buffer)@.len() == old(destination_buffer)@.len(),
            ok ==> {
                &&& sectors_in_range(self.contents(), start_lba, sector_count)
                &&& final(destination_buffer)@ == self.contents().subrange(
                    start_lba * 512,
                    (start_lba + sector_count) * 512,
                ) + old(destination_buffer)@.skip(sector_count * 512)
            },
            self.reliable() && sectors_in_range(self.contents(), start_lba, sector_count) ==> ok,
    ;

    /// Write `sector_count` sectors, from `start_lba` on, from the start of
    /// `source_buffer`. Returns whether the device reported success.
    fn write_sectors(&mut self, start_lba: u64, sector_count: u32, source_buffer: &[u8]) -> (ok:
        bool)
        requires
            source_buffer@.len() >= sector_count * 512,
        ensures
            final(self).reliable() == old(self).reliable(),
            ok ==> {
                &&& sectors_in_range(old(self).contents(), start_lba, sector_count)
                &&& final(self).contents() == overwrite(
                    old(self).contents(),
                    start_lba * 512,
                    source_buffer@.take(sector_count * 512),
                )
            },
            !ok ==> unchanged_outside(
                old(self).contents(),
                final(self).contents(),
                start_lba * 512,
                (start_lba + sector_count) * 512,
            ),
            old(self).reliable() && sectors_in_range(
                old(self).contents(),
                start_lba,
                sector_count,
            ) ==> ok,
    ;

    /// Capacity of the device in sectors.
    fn total_sector_count(&self) -> (count: u64)
        ensures
            count * 512 == self.contents().len(),
    ;

    /// Size of a sector in bytes.
    fn sector_size_in_bytes(&self) -> (size: u32)
        ensures
            size == 512,
    {
        512
    }

    /// A name for the device, for messages to a user.
    fn device_name(&self) -> &str;
}

/// A device that lives in memory.
pub struct MemoryDisk {
    data: Vec<u8>,
}

impl MemoryDisk {
    /// The bytes on the disk.
    pub closed spec fn view(&self) -> Seq<u8> {
        self.data@
    }

    /// The disk's size is a whole number of sectors.
    #[verifier::type_invariant]
    spec fn whole_sectors(self) -> bool {
        self.data@.len() % 512 == 0
    }

    /// A disk of `sector_count` sectors, filled with zeros.
    pub fn new(sector_count: u32) -> (disk: MemoryDisk)
        requires
            sector_count * 512 <= usize::MAX,
        ensures
            disk@ == crate::bytes::zeros((sector_count * 512) as nat),
    {
        MemoryDisk { data: crate::bytes::zeroed_buffer(sector_count as usize * 512) }
    }
}

impl BlockDevice for MemoryDisk {
    open spec fn contents(&self) -> Seq<u8> {
        self@
    }

    open spec fn reliable(&self) -> bool {
        true
    }

    fn read_sectors(
        &self,
        start_lba: u64,
        sector_count: u32,
        destination_buffer: &mut [u8],
    ) -> (ok: bool) {
        let capacity: usize = self.data.len();
        let total: u64 = capacity as u64 / 512;
        proof {
            use_type_invariant(&*self);
        }
        if start_lba > total || sector_count as u64 > total - start_lba {
            return false;
        }
        let start: usize = start_lba as usize * 512;
        let count: usize = sector_count as usize * 512;
        let mut index: usize = 0;
        while index < count
            invariant
                index <= count,
                start + count <= capacity,
                capacity == self.data@.len(),
                destination_buffer@.len() == old(destination_buffer)@.len(),
                count <= destination_buffer@.len(),
                forall|i: int|
                    0 <= i < index ==> destination_buffer@[i] == self.data@[start + i],
                forall|i: int|
                    index <= i < destination_buffer@.len() ==> destination_buffer@[i] == old(
                        destination_buffer,
                    )@[i],
            decreases count - index,
        {
            let position: usize = start + index;
            destination_buffer[index] = self.data[position];
            index = index + 1;
        }
        assert(destination_buffer@ =~= self.contents().subrange(
            start_lba * 512,
            (start_lba + sector_count) * 512,
        ) + old(destination_buffer)@.skip(sector_count * 512));
        true
    }

    fn write_sectors(&mut self, start_lba: u64, sector_count: u32, source_buffer: &[u8]) -> (ok:
        bool) {
        let capacity: usize = self.data.len();
        let total: u64 = capacity as u64 / 512;
        proof {
            use_type_invariant(&*self);
        }
        if start_lba > total || sector_count as u64 > total - start_lba {
            return false;
        }
        let start: usize = start_lba as usize * 512;
        let count: usize = sector_count as usize * 512;
        let mut data: Vec<u8> = Vec::new();
        let ghost before = self.data@;
        core::mem::swap(&mut self.data, &mut data);
        let mut index: usize = 0;
        while index < count
            invariant
                index <= count,
                data@.len() == before.len(),
                start + count <= capacity,
                capacity == data@.len(),
                count <= source_buffer@.len(),
                forall|i: int| 0 <= i < index ==> data@[start + i] == source_buffer@[i],
                forall|i: int|
                    0 <= i < data@.len() && !(start <= i < start + index) ==> data@[i]
                        == before[i],
            decreases count - index,
        {
            let position: usize = start + index;
            data.set(position, source_buffer[index]);
            index = index + 1;
        }
        assert(data@ =~= overwrite(before, start as int, source_buffer@.take(count as int)))
            by {
            assert forall|i: int| start <= i < start + count implies data@[i] == source_buffer@[i
                - start] by {
                assert(data@[start + (i - start)] == source_buffer@[i - start]);
            }
        }
        self.data = data;
        true
    }

    fn total_sector_count(&self) -> (count: u64) {
        proof {
            use_type_invariant(&*self);
        }
        self.data.len() as u64 / 512
    }

    fn device_name(&self) -> (name: &str)
        ensures
            name@ == "memory"@,
    {
        "memory"
    }
}

} // verus!
