use vstd::prelude::*;
use crate::block::BlockDevice;

verus! {

/// A partition of a disk seen as a disk of its own: block `lba` of the partition is block
/// `start_lba + lba` of the disk, and no access reaches past its `sectors` blocks. `kind` is
/// the disk's interface (0 NVMe, 1 SATA, 2 IDE).
pub struct PartitionDevice<D: BlockDevice> {
    pub kind: u8,
    pub start_lba: u64,
    pub sectors: u64,
    pub disk: D,
}

impl<D: BlockDevice> PartitionDevice<D> {
    /// The partition of `disk` (of interface `kind`) of `sectors` blocks from `start_lba` on.
    pub fn new(kind: u8, start_lba: u64, sectors: u64, disk: D) -> (r: Self)
        ensures
            r.kind == kind,
            r.start_lba == start_lba,
            r.sectors == sectors,
            r.disk == disk,
    {
        PartitionDevice { kind, start_lba, sectors, disk }
    }

    /// Whether block `lba` of the partition lies on the disk: inside the partition, on a
    /// known interface, and not past the last block number.
    pub open spec fn maps(&self, lba: u64) -> bool {
        lba < self.sectors && self.kind <= 2 && self.start_lba + lba <= u64::MAX
    }
}

impl<D: BlockDevice> BlockDevice for PartitionDevice<D> {
    open spec fn sector(&self, lba: u64) -> Seq<u8> {
        if self.maps(lba) {
            self.disk.sector((self.start_lba + lba) as u64)
        } else {
            Seq::empty()
        }
    }

    /// A block of the partition is served when it lies on the disk and the disk serves it.
    open spec fn serves(&self, lba: u64) -> bool {
        self.maps(lba) && self.disk.serves((self.start_lba + lba) as u64)
    }

    /// A partition on an unknown interface reports 512-byte blocks; on a known one, what the
    /// disk reports.
    open spec fn reported_size(&self) -> Option<u32> {
        if self.kind > 2 { Some(512u32) } else { self.disk.reported_size() }
    }

    fn read_block(&mut self, lba: u64, buf: &mut Vec<u8>) -> (r: Result<(), &'static str>)
        ensures
            lba >= old(self).sectors || (old(self).kind <= 2 && old(self).start_lba + lba > u64::MAX) ==> r == Err::<(), &'static str>(
                "Read outside the partition was denied",
            ) && final(self).disk == old(self).disk,
            lba < old(self).sectors && old(self).kind > 2 ==> r == Err::<(), &'static str>("Unknown disk type (Read denied)")
                && final(self).disk == old(self).disk,
    {
        if lba >= self.sectors {
            return Err("Read outside the partition was denied");
        }
        if self.kind > 2 {
            return Err("Unknown disk type (Read denied)");
        }
        if self.start_lba > u64::MAX - lba {
            return Err("Read outside the partition was denied");
        }
        let abs = self.start_lba + lba;
        self.disk.read_block(abs, buf)
    }

    fn write_block(&mut self, lba: u64, buf: &[u8]) -> (r: Result<(), &'static str>)
        ensures
            forall|l: u64|
                !(old(self).start_lba <= l < old(self).start_lba + old(self).sectors) ==> #[trigger] final(self).disk.sector(l)
                    == old(self).disk.sector(l),
            !old(self).maps(lba) ==> r is Err && final(self).disk == old(self).disk,
            lba >= old(self).sectors || (old(self).kind <= 2 && old(self).start_lba + lba > u64::MAX) ==> r == Err::<(), &'static str>(
                "Write request outside partition denied",
            ),
            lba < old(self).sectors && old(self).kind > 2 ==> r == Err::<(), &'static str>("Unknown disk type (Write denied)"),
    {
        if lba >= self.sectors {
            return Err("Write request outside partition denied");
        }
        if self.kind > 2 {
            return Err("Unknown disk type (Write denied)");
        }
        if self.start_lba > u64::MAX - lba {
            return Err("Write request outside partition denied");
        }
        let abs = self.start_lba + lba;
        let r = self.disk.write_block(abs, buf);
        assert forall|l: u64| #[trigger] self.sector(l) == old(self).sector(l) || l == lba by {
            if l != lba && old(self).maps(l) {
                assert((self.start_lba + l) as u64 != abs);
            }
        }
        r
    }

    fn block_size(&self) -> (r: u32)
        ensures
            self.kind > 2 ==> r == 512,
            self.kind <= 2 ==> (self.disk.reported_size() matches Some(n) ==> r == n),
    {
        if self.kind <= 2 {
            self.disk.block_size()
        } else {
            512
        }
    }
}

} // verus!
