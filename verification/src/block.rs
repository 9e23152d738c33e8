use vstd::prelude::*;

verus! {

/// The contents of a disk: the bytes of each block, by block number.
pub type Disk = spec_fn(u64) -> Seq<u8>;

/// A device that reads and writes whole blocks by number. Implementations are the storage
/// drivers and the partition view of a disk.
pub trait BlockDevice {
    /// The bytes that block `lba` holds. Devices the proofs reason about give their blocks
    /// here; the default, for devices written outside the verified code, describes none.
    closed spec fn sector(&self, lba: u64) -> Seq<u8> {
        Seq::empty()
    }

    /// Whether the device serves requests for block `lba`: reading it into a buffer of the
    /// block's size, and writing it, succeed. The default, for devices written outside the
    /// verified code, promises nothing.
    closed spec fn serves(&self, lba: u64) -> bool {
        false
    }

    /// Reads block `lba` into `buf`, which keeps its length. A successful read gives the
    /// block's bytes; reading changes nothing on the device. A served block read into a
    /// buffer of its size is read.
    fn read_block(&mut self, lba: u64, buf: &mut Vec<u8>) -> (r: Result<(), &'static str>)
        ensures
            final(buf)@.len() == old(buf)@.len(),
            forall|l: u64| #[trigger] final(self).sector(l) == old(self).sector(l),
            forall|l: u64| #[trigger] final(self).serves(l) == old(self).serves(l),
            r is Ok ==> final(buf)@ == old(self).sector(lba),
            old(self).serves(lba) && old(buf)@.len() == old(self).sector(lba).len() ==> r is Ok,
    ;

    /// Writes `buf` to block `lba`. A write, whether it succeeds or not, leaves every other
    /// block as it was; after a successful one the block holds `buf`. A served block is
    /// written.
    fn write_block(&mut self, lba: u64, buf: &[u8]) -> (r: Result<(), &'static str>)
        ensures
            forall|l: u64| l != lba ==> #[trigger] final(self).sector(l) == old(self).sector(l),
            forall|l: u64| #[trigger] final(self).serves(l) == old(self).serves(l),
            r is Ok ==> final(self).sector(lba) == buf@,
            old(self).serves(lba) ==> r is Ok,
    ;

    /// The block size the device reports, when it is known to the proofs; the default, for
    /// devices written outside the verified code, knows none.
    closed spec fn reported_size(&self) -> Option<u32> {
        None
    }

    /// The size of one block in bytes: the reported size, when it is known.
    fn block_size(&self) -> (r: u32)
        ensures
            self.reported_size() matches Some(n) ==> r == n,
    ;
}

/// Whether every block of `d` is served and holds `size` bytes: a working disk of
/// `size`-byte blocks.
pub open spec fn healthy<D: BlockDevice + ?Sized>(d: &D, size: int) -> bool {
    forall|l: u64| #![trigger d.serves(l)] #![trigger d.sector(l)] d.serves(l) && d.sector(l).len() == size
}

/// Whether `b` serves the same blocks as `a`.
pub open spec fn same_service<D: BlockDevice + ?Sized>(a: &D, b: &D) -> bool {
    forall|l: u64| #[trigger] b.serves(l) == a.serves(l)
}

/// The contents of the device `d`.
pub open spec fn disk_of<D: BlockDevice + ?Sized>(d: &D) -> Disk {
    |l: u64| d.sector(l)
}

/// `d` with block `lba` replaced by `data`.
pub open spec fn disk_put(d: Disk, lba: u64, data: Seq<u8>) -> Disk {
    |l: u64| if l == lba { data } else { d(l) }
}

/// A read leaves the contents of the device as they were.
pub proof fn lemma_read_keeps<D: BlockDevice + ?Sized>(a: &D, b: &D)
    requires
        forall|l: u64| #[trigger] b.sector(l) == a.sector(l),
    ensures
        disk_of(b) == disk_of(a),
{
    assert(disk_of(b) =~= disk_of(a));
}

/// A write replaces one block.
pub proof fn lemma_write_puts<D: BlockDevice + ?Sized>(a: &D, b: &D, lba: u64, data: Seq<u8>)
    requires
        forall|l: u64| #[trigger] b.sector(l) == (if l == lba { data } else { a.sector(l) }),
    ensures
        disk_of(b) == disk_put(disk_of(a), lba, data),
{
    assert(disk_of(b) =~= disk_put(disk_of(a), lba, data));
}

/// Reads block `lba` of `dev` into `buf`, stated over the contents of the device.
pub fn read_sector<D: BlockDevice>(dev: &mut D, lba: u64, buf: &mut Vec<u8>) -> (r: Result<(), &'static str>)
    ensures
        final(buf)@.len() == old(buf)@.len(),
        disk_of(final(dev)) == disk_of(old(dev)),
        same_service(old(dev), final(dev)),
        r is Ok ==> final(buf)@ == disk_of(old(dev))(lba),
        old(dev).serves(lba) && old(buf)@.len() == disk_of(old(dev))(lba).len() ==> r is Ok,
        forall|n: int| healthy(old(dev), n) ==> #[trigger] healthy(final(dev), n),
{
    let r = dev.read_block(lba, buf);
    proof {
        lemma_read_keeps(old(dev), dev);
    }
    r
}

/// Writes `buf` to block `lba` of `dev`, stated over the contents of the device.
pub fn write_sector<D: BlockDevice>(dev: &mut D, lba: u64, buf: &[u8]) -> (r: Result<(), &'static str>)
    ensures
        forall|l: u64| l != lba ==> #[trigger] disk_of(final(dev))(l) == disk_of(old(dev))(l),
        same_service(old(dev), final(dev)),
        r is Ok ==> disk_of(final(dev)) == disk_put(disk_of(old(dev)), lba, buf@),
        old(dev).serves(lba) ==> r is Ok,
        forall|n: int| healthy(old(dev), n) && buf@.len() == n ==> #[trigger] healthy(final(dev), n),
{
    let r = dev.write_block(lba, buf);
    proof {
        if r is Ok {
            assert forall|l: u64| #[trigger] dev.sector(l) == (if l == lba { buf@ } else { old(dev).sector(l) }) by {}
            lemma_write_puts(old(dev), dev, lba, buf@);
        }
    }
    r
}

} // verus!
