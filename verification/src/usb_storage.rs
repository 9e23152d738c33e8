use vstd::prelude::*;
use crate::bytes::{le32, splice, le32_bytes, put_le32, put_bytes, zeroes, get_le32};

verus! {

/// `USBC`, the signature of a command block wrapper.
pub const CBW_SIG: u32 = 0x4342_5355;
/// `USBS`, the signature of a command status wrapper.
pub const CSW_SIG: u32 = 0x5342_5355;

/// A USB mass-storage device driven over bulk-only transport: its slot, logical unit,
/// geometry and the tag of its last command.
pub struct StorageDev {
    pub slot: u8,
    pub lun: u8,
    pub block_size: u32,
    pub block_count: u64,
    pub tag: u32,
}

impl StorageDev {
    /// A device on slot `slot`, unit `lun`, of unknown size with 512-byte blocks.
    pub fn new(slot: u8, lun: u8) -> (r: StorageDev)
        ensures
            r.slot == slot && r.lun == lun && r.block_size == 512 && r.block_count == 0 && r.tag == 0,
    {
        StorageDev { slot, lun, block_size: 512, block_count: 0, tag: 0 }
    }

    /// The tag of the next command: one past the last, wrapping.
    pub fn next_tag(&mut self) -> (r: u32)
        ensures
            r == (old(self).tag + 1) % 0x1_0000_0000,
            final(self).tag == r,
            final(self).slot == old(self).slot && final(self).lun == old(self).lun,
            final(self).block_size == old(self).block_size && final(self).block_count == old(self).block_count,
    {
        self.tag = self.tag.wrapping_add(1);
        self.tag
    }
}

/// The 31-byte command block wrapper for SCSI command `cb` with tag `tag`, expecting
/// `data_len` bytes in (`dir_in`) or out, for unit `lun`.
pub open spec fn cbw_spec(tag: u32, data_len: u32, dir_in: bool, lun: u8, cb: Seq<u8>) -> Seq<u8> {
    let b = Seq::new(31, |i: int| 0u8);
    let b = splice(b, 0, le32_bytes(CBW_SIG));
    let b = splice(b, 4, le32_bytes(tag));
    let b = splice(b, 8, le32_bytes(data_len));
    let b = b.update(12, if dir_in { 0x80u8 } else { 0u8 });
    let b = b.update(13, lun);
    let b = b.update(14, cb.len() as u8);
    splice(b, 15, cb)
}

/// The command block wrapper for SCSI command `cb`: see `cbw_spec`. Commands are 1 to 16
/// bytes; others are refused.
pub fn build_cbw(tag: u32, data_len: u32, dir_in: bool, lun: u8, cb: &[u8]) -> (r: Result<Vec<u8>, &'static str>)
    ensures
        cb@.len() == 0 || cb@.len() > 16 <==> r is Err,
        r matches Ok(b) ==> b@ == cbw_spec(tag, data_len, dir_in, lun, cb@),
{
    if cb.len() == 0 || cb.len() > 16 {
        return Err("SCSI cmd size is invalid");
    }
    let mut b = zeroes(31);
    assert(b@ =~= Seq::new(31, |i: int| 0u8));
    put_le32(&mut b, 0, CBW_SIG);
    put_le32(&mut b, 4, tag);
    put_le32(&mut b, 8, data_len);
    b.set(12, if dir_in { 0x80 } else { 0 });
    b.set(13, lun);
    b.set(14, cb.len() as u8);
    put_bytes(&mut b, 15, cb);
    Ok(b)
}

/// What the command status wrapper `csw` (13 bytes) says of the command tagged `tag`:
/// success, failure, or a phase error; a wrong signature or tag is refused.
pub open spec fn csw_spec(csw: Seq<u8>, tag: u32) -> Result<(), &'static str> {
    if le32(csw, 0) != CSW_SIG {
        Err("CSW signature is invalid")
    } else if le32(csw, 4) != tag {
        Err("CSW tag is invalid")
    } else if csw[12] == 0 {
        Ok(())
    } else if csw[12] == 1 {
        Err("SCSI command failed")
    } else {
        Err("SCSI physe error")
    }
}

/// What the command status wrapper `csw` says: see `csw_spec`.
pub fn check_csw(csw: &[u8], tag: u32) -> (r: Result<(), &'static str>)
    requires
        csw@.len() >= 13,
    ensures
        r == csw_spec(csw@, tag),
{
    if get_le32(csw, 0) != CSW_SIG {
        return Err("CSW signature is invalid");
    }
    if get_le32(csw, 4) != tag {
        return Err("CSW tag is invalid");
    }
    match csw[12] {
        0 => Ok(()),
        1 => Err("SCSI command failed"),
        _ => Err("SCSI physe error"),
    }
}

/// Big-endian value of the four bytes at `off`.
pub open spec fn be32(s: Seq<u8>, off: int) -> int {
    s[off] as int * 0x100_0000 + s[off + 1] as int * 0x1_0000 + s[off + 2] as int * 0x100 + s[off + 3] as int
}

/// The READ(10) (or, when `write`, WRITE(10)) command for `blocks` blocks from `lba`, both
/// big-endian.
pub fn rw10_cdb(write: bool, lba: u32, blocks: u16) -> (r: [u8; 10])
    ensures
        r@[0] == (if write { 0x2Au8 } else { 0x28u8 }),
        r@[1] == 0 && r@[6] == 0 && r@[9] == 0,
        be32(r@, 2) == lba,
        r@[7] as int * 0x100 + r@[8] as int == blocks,
{
    let l0: u8 = (lba / 0x100_0000) as u8;
    let l1: u8 = ((lba / 0x1_0000) % 0x100) as u8;
    let l2: u8 = ((lba / 0x100) % 0x100) as u8;
    let l3: u8 = (lba % 0x100) as u8;
    let n0: u8 = (blocks / 0x100) as u8;
    let n1: u8 = (blocks % 0x100) as u8;
    [if write { 0x2A } else { 0x28 }, 0, l0, l1, l2, l3, 0, n0, n1, 0]
}

/// The last block and the block size a READ CAPACITY(10) reply `b` gives, both big-endian.
pub fn parse_capacity(b: &[u8]) -> (r: (u32, u32))
    requires
        b@.len() >= 8,
    ensures
        r.0 == be32(b@, 0),
        r.1 == be32(b@, 4),
{
    let last = b[0] as u32 * 0x100_0000 + b[1] as u32 * 0x1_0000 + b[2] as u32 * 0x100 + b[3] as u32;
    let bs = b[4] as u32 * 0x100_0000 + b[5] as u32 * 0x1_0000 + b[6] as u32 * 0x100 + b[7] as u32;
    (last, bs)
}

/// The block size and count a device gets from a READ CAPACITY reply of last block `last`
/// and block size `bs`: only sizes from 512 to 4096 bytes are taken.
pub fn capacity_geometry(last: u32, bs: u32) -> (r: Option<(u32, u64)>)
    ensures
        512 <= bs <= 4096 ==> r == Some((bs, (last + 1) as u64)),
        !(512 <= bs <= 4096) ==> r is None,
{
    if bs >= 512 && bs <= 4096 {
        Some((bs, last as u64 + 1))
    } else {
        None
    }
}

} // verus!
