use vstd::prelude::*;
use crate::block::{BlockDevice, Disk, disk_of, healthy, read_sector};
use crate::bytes::{le16, le32, le64, get_le16, get_le32, get_le64, bytes_eq, slice_of, zeroes};
use crate::fat32::{Fat32, boot_ok, boot_params};
use crate::offset::PartitionDevice;
use crate::vfs::Fat32FileSystem;
use vstd::string::StringSliceAdditionalSpecFns;

verus! {

/// No file system was recognised on the partition.
pub const FS_UNKNOWN: u8 = 0;
/// A FAT file system (FAT12, FAT16 or FAT32).
pub const FS_FAT: u8 = 1;
/// An NTFS or exFAT file system.
pub const FS_NTFS: u8 = 2;
/// The partition's first block is blank or carries no boot signature.
pub const FS_EMPTY: u8 = 3;

/// One used entry of a GUID partition table.
pub struct Partition {
    /// Its position in the table, from 1.
    pub index: u32,
    pub first_lba: u64,
    pub last_lba: u64,
    /// `last_lba - first_lba + 1`.
    pub sectors: u64,
    /// The entry's name, one byte per character, `?` for what is not printable ASCII.
    pub name: Vec<u8>,
    /// What the partition type and file system make of it.
    pub label: &'static str,
    pub fs_kind: u8,
    /// Whether installing over the partition is refused.
    pub protected: bool,
}

/// The partitions of a disk as its GUID partition table lists them.
pub struct DiskLayout {
    pub total_sectors: u64,
    pub has_gpt: bool,
    pub partitions: Vec<Partition>,
}

/// The text an entry's UTF-16 name gives from byte `i` on: each code unit up to the first
/// zero one becomes its byte when printable ASCII and `?` otherwise.
pub open spec fn name_from(raw: Seq<u8>, i: int) -> Seq<u8>
    decreases raw.len() - i,
{
    if i < 0 || i + 1 >= raw.len() {
        Seq::empty()
    } else {
        let c = le16(raw, i);
        if c == 0 {
            Seq::empty()
        } else {
            seq![if 0x20 <= c < 0x7F { c as u8 } else { 63u8 }] + name_from(raw, i + 2)
        }
    }
}

/// The name of a partition entry from its UTF-16 name field: see `name_from`.
pub fn decode_name(raw: &[u8]) -> (r: Vec<u8>)
    ensures
        r@ == name_from(raw@, 0),
{
    let mut s: Vec<u8> = Vec::new();
    let mut i: usize = 0;
    let _n = raw.len();
    while i + 1 < raw.len()
        invariant
            i <= raw@.len(),
            i % 2 == 0,
            s@ + name_from(raw@, i as int) == name_from(raw@, 0),
        decreases raw@.len() - i,
    {
        let c = get_le16(raw, i);
        if c == 0 {
            assert(name_from(raw@, i as int) == Seq::<u8>::empty());
            assert(s@ + Seq::<u8>::empty() =~= s@);
            return s;
        }
        let ghost before = s@;
        if 0x20 <= c && c < 0x7F {
            s.push(c as u8);
        } else {
            s.push(63u8);
        }
        proof {
            assert(before + name_from(raw@, i as int) =~= s@ + name_from(raw@, i + 2));
        }
        i = i + 2;
    }
    assert(name_from(raw@, i as int) == Seq::<u8>::empty());
    assert(s@ + Seq::<u8>::empty() =~= s@);
    s
}

/// `NTFS`, the OEM name of an NTFS volume.
pub open spec fn sig_ntfs() -> Seq<u8> {
    seq![0x4Eu8, 0x54, 0x46, 0x53]
}

/// `EXFAT` padded to eight bytes, the OEM name of an exFAT volume.
pub open spec fn sig_exfat() -> Seq<u8> {
    seq![0x45u8, 0x58, 0x46, 0x41, 0x54, 0x20, 0x20, 0x20]
}

/// `FAT32`, the start of a FAT32 volume's type string.
pub open spec fn sig_fat32() -> Seq<u8> {
    seq![0x46u8, 0x41, 0x54, 0x33, 0x32]
}

/// `FAT`, the start of a FAT12 or FAT16 volume's type string.
pub open spec fn sig_fat() -> Seq<u8> {
    seq![0x46u8, 0x41, 0x54]
}

/// What a partition's first block says of its file system: NTFS or exFAT by their OEM name,
/// FAT32 or FAT12/16 by their type string, empty when it is all zero or lacks the boot
/// signature, and unknown otherwise.
pub open spec fn fs_of_block(b: Seq<u8>) -> u8 {
    if b.len() < 512 {
        FS_UNKNOWN
    } else if b.subrange(3, 7) == sig_ntfs() {
        FS_NTFS
    } else if b.subrange(3, 11) == sig_exfat() {
        FS_NTFS
    } else if b.subrange(82, 87) == sig_fat32() {
        FS_FAT
    } else if b.subrange(54, 57) == sig_fat() {
        FS_FAT
    } else if (forall|i: int| 0 <= i < 512 ==> b[i] == 0) || b[510] != 0x55 || b[511] != 0xAA {
        FS_EMPTY
    } else {
        FS_UNKNOWN
    }
}

/// Whether `b` holds `lit` at `off`.
fn bytes_at(b: &[u8], off: usize, lit: &[u8]) -> (r: bool)
    requires
        off + lit@.len() <= b@.len(),
    ensures
        r == (b@.subrange(off as int, off + lit@.len()) == lit@),
{
    let _n = b.len();
    let part = slice_of(b, off, off + lit.len());
    bytes_eq(part.as_slice(), lit)
}

/// The file system kind a partition's first block shows: see `fs_of_block`.
pub fn fs_kind_of(b: &[u8]) -> (r: u8)
    ensures
        r == fs_of_block(b@),
{
    if b.len() < 512 {
        return FS_UNKNOWN;
    }
    let ntfs: [u8; 4] = [0x4E, 0x54, 0x46, 0x53];
    let exfat: [u8; 8] = [0x45, 0x58, 0x46, 0x41, 0x54, 0x20, 0x20, 0x20];
    let fat32: [u8; 5] = [0x46, 0x41, 0x54, 0x33, 0x32];
    let fat: [u8; 3] = [0x46, 0x41, 0x54];
    assert(ntfs@ =~= sig_ntfs());
    assert(exfat@ =~= sig_exfat());
    assert(fat32@ =~= sig_fat32());
    assert(fat@ =~= sig_fat());
    if bytes_at(b, 3, ntfs.as_slice()) {
        return FS_NTFS;
    }
    if bytes_at(b, 3, exfat.as_slice()) {
        return FS_NTFS;
    }
    if bytes_at(b, 82, fat32.as_slice()) {
        return FS_FAT;
    }
    if bytes_at(b, 54, fat.as_slice()) {
        return FS_FAT;
    }
    let mut all_zero = true;
    let mut i: usize = 0;
    while i < 512
        invariant
            i <= 512,
            b@.len() >= 512,
            all_zero == (forall|k: int| 0 <= k < i ==> b@[k] == 0),
        decreases 512 - i,
    {
        if b[i] != 0 {
            all_zero = false;
        }
        i = i + 1;
    }
    if all_zero || b[510] != 0x55 || b[511] != 0xAA {
        return FS_EMPTY;
    }
    FS_UNKNOWN
}

/// The file system on the partition whose first block is `first_lba`: what that block
/// shows (see `fs_of_block`), or unknown when it cannot be read.
pub fn sniff_fs<D: BlockDevice>(dev: &mut D, first_lba: u64) -> (r: u8)
    ensures
        disk_of(final(dev)) == disk_of(old(dev)),
        r == fs_of_block(disk_of(old(dev))(first_lba)) || r == FS_UNKNOWN,
        forall|n: int| healthy(old(dev), n) ==> #[trigger] healthy(final(dev), n),
        old(dev).serves(first_lba) && disk_of(old(dev))(first_lba).len() == 512 ==> r == fs_of_block(
            disk_of(old(dev))(first_lba),
        ),
{
    let mut b = zeroes(512);
    match read_sector(dev, first_lba, &mut b) {
        Ok(()) => fs_kind_of(b.as_slice()),
        Err(_) => FS_UNKNOWN,
    }
}

/// The type GUID of the EFI system partition, as stored.
pub open spec fn guid_efi() -> Seq<u8> {
    seq![0x28u8, 0x73, 0x2A, 0xC1, 0x1F, 0xF8, 0xD2, 0x11, 0xBA, 0x4B, 0x00, 0xA0, 0xC9, 0x3E, 0xC9, 0x3B]
}

/// The type GUID of the Microsoft reserved partition.
pub open spec fn guid_msr() -> Seq<u8> {
    seq![0x16u8, 0xE3, 0xC9, 0xE3, 0x5C, 0x0B, 0xB8, 0x4D, 0x81, 0x7D, 0xF9, 0x2D, 0xF0, 0x02, 0x15, 0xAE]
}

/// The type GUID of a basic data partition.
pub open spec fn guid_msdata() -> Seq<u8> {
    seq![0xA2u8, 0xA0, 0xD0, 0xEB, 0xE5, 0xB9, 0x33, 0x44, 0x87, 0xC0, 0x68, 0xB6, 0xB7, 0x26, 0x99, 0xC7]
}

/// The type GUID of the Windows recovery partition.
pub open spec fn guid_winre() -> Seq<u8> {
    seq![0xA4u8, 0xBB, 0x94, 0xDE, 0xD1, 0x06, 0x40, 0x4D, 0xA1, 0x6A, 0xBF, 0xD5, 0x01, 0x79, 0xD6, 0xAC]
}

/// The type GUID of a Linux file system partition.
pub open spec fn guid_linux() -> Seq<u8> {
    seq![0xAFu8, 0x3D, 0xC6, 0x0F, 0x83, 0x84, 0x72, 0x47, 0x8E, 0x79, 0x3D, 0x69, 0xD8, 0x47, 0x7D, 0xE4]
}

/// The type GUID of a Linux LVM partition.
pub open spec fn guid_linux_lvm() -> Seq<u8> {
    seq![0x79u8, 0xD3, 0xD6, 0xE6, 0x07, 0xF5, 0xC2, 0x44, 0xA2, 0x3C, 0x23, 0x8F, 0x2A, 0x3D, 0xF9, 0x28]
}

/// The type GUID of a Linux swap partition.
pub open spec fn guid_linux_swap() -> Seq<u8> {
    seq![0x6Du8, 0xFD, 0x57, 0x06, 0xAB, 0xA4, 0xC4, 0x43, 0x84, 0xE5, 0x09, 0x33, 0xC8, 0x4B, 0x4F, 0x4F]
}

/// The label of a partition of type `tg` holding file system `fs`, and whether it is
/// protected from installation: the known system types are protected, a basic data
/// partition is protected only when it holds NTFS, and an unknown type is protected.
pub open spec fn classify_spec(tg: Seq<u8>, fs: u8) -> (Seq<char>, bool) {
    if tg == guid_efi() {
        ("EFI Sistem"@, true)
    } else if tg == guid_msr() {
        ("Microsoft Ayrilmis"@, true)
    } else if tg == guid_winre() {
        ("Windows Kurtarma"@, true)
    } else if tg == guid_linux() {
        ("Linux"@, true)
    } else if tg == guid_linux_lvm() {
        ("Linux LVM"@, true)
    } else if tg == guid_linux_swap() {
        ("Linux Swap"@, true)
    } else if tg == guid_msdata() {
        if fs == FS_NTFS {
            ("Windows (NTFS)"@, true)
        } else if fs == FS_FAT {
            ("FAT32 (bos)"@, false)
        } else if fs == FS_EMPTY {
            ("Bos (Basic)"@, false)
        } else {
            ("Kurulabilir Alan"@, false)
        }
    } else {
        ("Bilinmeyen"@, true)
    }
}

/// The label and protection of a partition of type `tg` holding file system `fs`: see
/// `classify_spec`.
pub fn classify(tg: &[u8; 16], fs: u8) -> (r: (&'static str, bool))
    ensures
        (r.0@, r.1) == classify_spec(tg@, fs),
{
    let g_efi: [u8; 16] = [0x28, 0x73, 0x2A, 0xC1, 0x1F, 0xF8, 0xD2, 0x11, 0xBA, 0x4B, 0x00, 0xA0, 0xC9, 0x3E, 0xC9, 0x3B];
    let g_msr: [u8; 16] = [0x16, 0xE3, 0xC9, 0xE3, 0x5C, 0x0B, 0xB8, 0x4D, 0x81, 0x7D, 0xF9, 0x2D, 0xF0, 0x02, 0x15, 0xAE];
    let g_msdata: [u8; 16] = [0xA2, 0xA0, 0xD0, 0xEB, 0xE5, 0xB9, 0x33, 0x44, 0x87, 0xC0, 0x68, 0xB6, 0xB7, 0x26, 0x99, 0xC7];
    let g_winre: [u8; 16] = [0xA4, 0xBB, 0x94, 0xDE, 0xD1, 0x06, 0x40, 0x4D, 0xA1, 0x6A, 0xBF, 0xD5, 0x01, 0x79, 0xD6, 0xAC];
    let g_linux: [u8; 16] = [0xAF, 0x3D, 0xC6, 0x0F, 0x83, 0x84, 0x72, 0x47, 0x8E, 0x79, 0x3D, 0x69, 0xD8, 0x47, 0x7D, 0xE4];
    let g_lvm: [u8; 16] = [0x79, 0xD3, 0xD6, 0xE6, 0x07, 0xF5, 0xC2, 0x44, 0xA2, 0x3C, 0x23, 0x8F, 0x2A, 0x3D, 0xF9, 0x28];
    let g_swap: [u8; 16] = [0x6D, 0xFD, 0x57, 0x06, 0xAB, 0xA4, 0xC4, 0x43, 0x84, 0xE5, 0x09, 0x33, 0xC8, 0x4B, 0x4F, 0x4F];
    assert(g_efi@ =~= guid_efi());
    assert(g_msr@ =~= guid_msr());
    assert(g_msdata@ =~= guid_msdata());
    assert(g_winre@ =~= guid_winre());
    assert(g_linux@ =~= guid_linux());
    assert(g_lvm@ =~= guid_linux_lvm());
    assert(g_swap@ =~= guid_linux_swap());
    let t = tg.as_slice();
    if bytes_eq(t, g_efi.as_slice()) {
        return ("EFI Sistem", true);
    }
    if bytes_eq(t, g_msr.as_slice()) {
        return ("Microsoft Ayrilmis", true);
    }
    if bytes_eq(t, g_winre.as_slice()) {
        return ("Windows Kurtarma", true);
    }
    if bytes_eq(t, g_linux.as_slice()) {
        return ("Linux", true);
    }
    if bytes_eq(t, g_lvm.as_slice()) {
        return ("Linux LVM", true);
    }
    if bytes_eq(t, g_swap.as_slice()) {
        return ("Linux Swap", true);
    }
    if bytes_eq(t, g_msdata.as_slice()) {
        if fs == FS_NTFS {
            return ("Windows (NTFS)", true);
        } else if fs == FS_FAT {
            return ("FAT32 (bos)", false);
        } else if fs == FS_EMPTY {
            return ("Bos (Basic)", false);
        } else {
            return ("Kurulabilir Alan", false);
        }
    }
    ("Bilinmeyen", true)
}

/// `EFI PART`, the signature of a GPT header.
pub open spec fn sig_efi_part() -> Seq<u8> {
    seq![0x45u8, 0x46, 0x49, 0x20, 0x50, 0x41, 0x52, 0x54]
}

/// Whether `h` is a GPT header: a block that starts with its signature.
pub open spec fn header_ok(h: Seq<u8>) -> bool {
    h.len() >= 512 && h.subrange(0, 8) == sig_efi_part()
}

/// The first block of the partition entry array.
pub open spec fn entry_lba(h: Seq<u8>) -> int {
    le64(h, 72)
}

/// How many entries are read: as many as the header gives, at most 128.
pub open spec fn entry_count(h: Seq<u8>) -> int {
    if le32(h, 80) < 128 { le32(h, 80) } else { 128 }
}

/// The size of one entry.
pub open spec fn entry_size(h: Seq<u8>) -> int {
    le32(h, 84)
}

/// Whether the header gives an entry size that is read: 128 to 512 bytes.
pub open spec fn size_ok(h: Seq<u8>) -> bool {
    128 <= entry_size(h) <= 512
}

/// How many entries one block holds.
pub open spec fn per_block(h: Seq<u8>) -> int {
    512int / entry_size(h)
}

/// The bytes of entry `k` (from 0) of the array the header `h` describes.
pub open spec fn entry_at(disk: Disk, h: Seq<u8>, k: int) -> Seq<u8> {
    let off = (k % per_block(h)) * entry_size(h);
    disk((entry_lba(h) + k / per_block(h)) as u64).subrange(off, off + entry_size(h))
}

/// Whether entry `e` describes a partition: a type that is not all zero and a range of
/// blocks that starts after block 0 and does not end before it starts.
pub open spec fn entry_used(e: Seq<u8>) -> bool {
    &&& e.subrange(0, 16) != Seq::new(16, |i: int| 0u8)
    &&& le64(e, 32) != 0
    &&& le64(e, 40) >= le64(e, 32)
}

/// The positions below `n` of the entries that describe a partition, in order.
pub open spec fn used_upto(disk: Disk, h: Seq<u8>, n: int) -> Seq<int>
    decreases n,
{
    if n <= 0 {
        Seq::empty()
    } else if entry_used(entry_at(disk, h, n - 1)) {
        used_upto(disk, h, n - 1).push(n - 1)
    } else {
        used_upto(disk, h, n - 1)
    }
}

/// Whether `p` is what entry `e`, at position `k` of the table, describes: its position from 1,
/// its range of blocks, its name, the file system its first block shows (or unknown, when
/// that block could not be read) and the label and protection of its type.
pub open spec fn describes(p: &Partition, disk: Disk, e: Seq<u8>, k: int) -> bool {
    &&& p.index == k + 1
    &&& p.first_lba == le64(e, 32)
    &&& p.last_lba == le64(e, 40)
    &&& p.sectors == le64(e, 40) - le64(e, 32) + 1
    &&& p.name@ == name_from(e.subrange(56, 128), 0)
    &&& (p.fs_kind == fs_of_block(disk(p.first_lba)) || p.fs_kind == FS_UNKNOWN)
    &&& (p.label@, p.protected) == classify_spec(e.subrange(0, 16), p.fs_kind)
}

/// Whether `ps` are the partitions that the used entries among the first `n` of the table
/// describe, in table order.
pub open spec fn lists_upto(ps: Seq<Partition>, disk: Disk, h: Seq<u8>, n: int) -> bool {
    let ks = used_upto(disk, h, n);
    &&& ps.len() == ks.len()
    &&& forall|j: int| 0 <= j < ps.len() ==> describes(&ps[j], disk, entry_at(disk, h, ks[j]), ks[j])
}

/// Whether each partition of `ps` shows the file system that its first block on `disk` holds.
pub open spec fn fs_exact(ps: Seq<Partition>, disk: Disk) -> bool {
    forall|j: int| 0 <= j < ps.len() ==> #[trigger] ps[j].fs_kind == fs_of_block(disk(ps[j].first_lba))
}

/// The partition entry `e`, at position `k` of the table, describes, with the file system on
/// it as far as its first block can be read.
fn partition_of<D: BlockDevice>(dev: &mut D, e: &[u8], k: u32) -> (r: Partition)
    requires
        e@.len() >= 128,
        entry_used(e@),
        k < u32::MAX,
    ensures
        disk_of(final(dev)) == disk_of(old(dev)),
        describes(&r, disk_of(old(dev)), e@, k as int),
        healthy(old(dev), 512) ==> healthy(final(dev), 512) && r.fs_kind == fs_of_block(disk_of(old(dev))(r.first_lba)),
{
    let mut tg = [0u8; 16];
    let mut i: usize = 0;
    while i < 16
        invariant
            i <= 16,
            e@.len() >= 128,
            forall|j: int| 0 <= j < i ==> tg@[j] == e@[j],
        decreases 16 - i,
    {
        tg[i] = e[i];
        i = i + 1;
    }
    assert(tg@ =~= e@.subrange(0, 16));
    let first = get_le64(e, 32);
    let last = get_le64(e, 40);
    let raw = slice_of(e, 56, 128);
    let name = decode_name(raw.as_slice());
    let fs = sniff_fs(dev, first);
    let (label, protected) = classify(&tg, fs);
    Partition {
        index: k + 1,
        first_lba: first,
        last_lba: last,
        sectors: last - first + 1,
        name,
        label,
        fs_kind: fs,
        protected,
    }
}

/// The partitions of the disk behind `dev`, of `total_sectors` blocks, from its GUID
/// partition table: none when block 1 holds no GPT header or the header gives an entry size
/// outside 128 to 512 bytes; otherwise those of the used entries among the first (at most
/// 128) that the header counts, in table order, as far as the blocks of the entry array can be
/// read.
pub fn read_disk<D: BlockDevice>(dev: &mut D, total_sectors: u64) -> (r: DiskLayout)
    ensures
        disk_of(final(dev)) == disk_of(old(dev)),
        r.total_sectors == total_sectors,
        r.has_gpt ==> header_ok(disk_of(old(dev))(1)),
        !r.has_gpt ==> r.partitions@.len() == 0,
        r.has_gpt && !size_ok(disk_of(old(dev))(1)) ==> r.partitions@.len() == 0,
        r.has_gpt && size_ok(disk_of(old(dev))(1)) ==> exists|n: int|
            0 <= n <= entry_count(disk_of(old(dev))(1)) && #[trigger] lists_upto(
                r.partitions@,
                disk_of(old(dev)),
                disk_of(old(dev))(1),
                n,
            ),
        healthy(old(dev), 512) ==> healthy(final(dev), 512) && fs_exact(r.partitions@, disk_of(old(dev))),
        healthy(old(dev), 512) ==> (r.has_gpt <==> header_ok(disk_of(old(dev))(1))),
        healthy(old(dev), 512) && header_ok(disk_of(old(dev))(1)) && size_ok(disk_of(old(dev))(1))
            && entry_lba(disk_of(old(dev))(1)) < u64::MAX - 128 ==> r.has_gpt && lists_upto(
            r.partitions@,
            disk_of(old(dev)),
            disk_of(old(dev))(1),
            entry_count(disk_of(old(dev))(1)),
        ),
{
    let ghost disk = disk_of(dev);
    let mut out = DiskLayout { total_sectors, has_gpt: false, partitions: Vec::new() };
    let mut hdr = zeroes(512);
    if read_sector(dev, 1, &mut hdr).is_err() {
        return out;
    }
    let sig: [u8; 8] = [0x45, 0x46, 0x49, 0x20, 0x50, 0x41, 0x52, 0x54];
    assert(sig@ =~= sig_efi_part());
    if !bytes_at(hdr.as_slice(), 0, sig.as_slice()) {
        return out;
    }
    out.has_gpt = true;
    let ghost h = hdr@;
    let first_sector = get_le64(hdr.as_slice(), 72);
    let count_raw = get_le32(hdr.as_slice(), 80);
    let num_entries: u32 = if count_raw < 128 { count_raw } else { 128 };
    let esize = get_le32(hdr.as_slice(), 84);
    if esize < 128 || esize > 512 {
        return out;
    }
    let per_sec: u32 = 512 / esize;
    assert(per_sec >= 1) by (nonlinear_arith)
        requires per_sec == 512u32 / esize, esize > 0, esize <= 512;
    assert(per_sec * esize <= 512) by (nonlinear_arith)
        requires per_sec == 512u32 / esize, esize > 0;
    assert(lists_upto(out.partitions@, disk, h, 0));
    let mut idx: u32 = 0;
    let mut sector: u64 = first_sector;
    let mut done = false;
    while !done
        invariant
            disk_of(dev) == disk,
            h == disk(1),
            header_ok(h),
            size_ok(h),
            first_sector == entry_lba(h),
            num_entries == entry_count(h),
            esize == entry_size(h),
            per_sec == per_block(h),
            1 <= per_sec,
            per_sec * esize <= 512,
            idx <= num_entries <= 128,
            !done ==> idx % per_sec == 0 && sector == first_sector + idx / per_sec,
            out.has_gpt,
            out.total_sectors == total_sectors,
            lists_upto(out.partitions@, disk, h, idx as int),
            healthy(old(dev), 512) ==> healthy(dev, 512) && fs_exact(out.partitions@, disk),
            healthy(old(dev), 512) && done && entry_lba(h) < u64::MAX - 128 ==> idx == num_entries,
            !done ==> idx <= 128,
        decreases num_entries - idx, if done { 0int } else { 1int },
    {
        let mut buf = zeroes(512);
        if read_sector(dev, sector, &mut buf).is_err() {
            done = true;
        } else {
            let mut e: u32 = 0;
            let ghost start_idx = idx;
            while e < per_sec && idx < num_entries
                invariant
                    disk_of(dev) == disk,
                    buf@ == disk(sector),
                    buf@.len() == 512,
                    h == disk(1),
                    header_ok(h),
                    size_ok(h),
                    first_sector == entry_lba(h),
                    num_entries == entry_count(h),
                    esize == entry_size(h),
                    per_sec == per_block(h),
                    1 <= per_sec,
                    per_sec * esize <= 512,
                    e <= per_sec,
                    idx <= num_entries <= 128,
                    idx == start_idx + e,
                    start_idx % per_sec == 0,
                    sector == first_sector + start_idx / per_sec,
                    out.has_gpt,
                    out.total_sectors == total_sectors,
                    lists_upto(out.partitions@, disk, h, idx as int),
                    healthy(old(dev), 512) ==> healthy(dev, 512) && fs_exact(out.partitions@, disk),
                decreases per_sec - e,
            {
                assert(e * esize + esize <= 512) by (nonlinear_arith)
                    requires e < per_sec, per_sec * esize <= 512, esize >= 0;
                let off: usize = (e * esize) as usize;
                let ent = slice_of(buf.as_slice(), off, off + esize as usize);
                proof {
                    let base = start_idx as int;
                    let d = per_sec as int;
                    vstd::arithmetic::div_mod::lemma_fundamental_div_mod(base, d);
                    assert(idx as int == (base / d) * d + e as int) by (nonlinear_arith)
                        requires base == d * (base / d) + base % d, base % d == 0, idx as int == base + e as int;
                    vstd::arithmetic::div_mod::lemma_fundamental_div_mod_converse(idx as int, d, base / d, e as int);
                    assert(ent@ == entry_at(disk, h, idx as int));
                }
                let ghost k = idx as int;
                let pos: u32 = idx;
                idx = idx + 1;
                let zero16 = zeroes(16);
                let ghost zs = Seq::new(16, |i: int| 0u8);
                assert(zero16@ =~= zs);
                let tg_part = slice_of(ent.as_slice(), 0, 16);
                let first = get_le64(ent.as_slice(), 32);
                let last = get_le64(ent.as_slice(), 40);
                if !bytes_eq(tg_part.as_slice(), zero16.as_slice()) && first != 0 && last >= first {
                    assert(entry_used(ent@));
                    let p = partition_of(dev, ent.as_slice(), pos);
                    out.partitions.push(p);
                    proof {
                        if healthy(old(dev), 512) {
                            assert forall|j: int| 0 <= j < out.partitions@.len() implies #[trigger] out.partitions@[j].fs_kind
                                == fs_of_block(disk(out.partitions@[j].first_lba)) by {
                                if j < out.partitions@.len() - 1 {
                                }
                            }
                        }
                        assert(used_upto(disk, h, k + 1) == used_upto(disk, h, k).push(k));
                        assert forall|j: int| 0 <= j < out.partitions@.len() implies describes(
                            &out.partitions@[j],
                            disk,
                            entry_at(disk, h, used_upto(disk, h, k + 1)[j]),
                            used_upto(disk, h, k + 1)[j],
                        ) by {
                            if j < out.partitions@.len() - 1 {
                            }
                        }
                    }
                } else {
                    assert(!entry_used(ent@));
                    assert(used_upto(disk, h, k + 1) == used_upto(disk, h, k));
                }
                e = e + 1;
            }
            if idx >= num_entries || sector == u64::MAX {
                proof {
                    if healthy(old(dev), 512) && entry_lba(h) < u64::MAX - 128 && idx < num_entries {
                        assert(start_idx / per_sec <= 128) by (nonlinear_arith)
                            requires start_idx <= 128, per_sec >= 1;
                    }
                }
                done = true;
            } else {
                proof {
                    let base = start_idx as int;
                    let d = per_sec as int;
                    assert(e == per_sec);
                    vstd::arithmetic::div_mod::lemma_div_plus_one(base, d);
                    vstd::arithmetic::div_mod::lemma_mod_add_multiples_vanish(base, d);
                    assert(idx as int == d + base);
                }
                sector = sector + 1;
            }
        }
    }
    out
}

/// The position of the first partition of `ps` labelled as the EFI system partition.
pub open spec fn first_esp(ps: Seq<Partition>) -> Option<int>
    decreases ps.len(),
{
    if ps.len() == 0 {
        None
    } else {
        match first_esp(ps.drop_last()) {
            Some(j) => Some(j),
            None => if ps.last().label@ == "EFI Sistem"@ {
                Some(ps.len() - 1)
            } else {
                None
            },
        }
    }
}

proof fn lemma_first_esp_prefix(ps: Seq<Partition>, k: int)
    requires
        0 <= k <= ps.len(),
        first_esp(ps.subrange(0, k)) is Some,
    ensures
        first_esp(ps) == first_esp(ps.subrange(0, k)),
    decreases ps.len() - k,
{
    if k < ps.len() {
        assert(ps.subrange(0, k + 1).drop_last() =~= ps.subrange(0, k));
        lemma_first_esp_prefix(ps, k + 1);
    } else {
        assert(ps.subrange(0, k) =~= ps);
    }
}

proof fn lemma_first_esp_range(ps: Seq<Partition>)
    ensures
        first_esp(ps) matches Some(j) ==> 0 <= j < ps.len() && ps[j].label@ == "EFI Sistem"@,
    decreases ps.len(),
{
    if ps.len() > 0 {
        lemma_first_esp_range(ps.drop_last());
    }
}

/// Strings with the same bytes are the same string.
proof fn lemma_same_bytes(a: &str, b: &str)
    requires
        a.spec_bytes() == b.spec_bytes(),
    ensures
        a@ == b@,
{
    vstd::utf8::encode_utf8_decode_utf8(a@);
    vstd::utf8::encode_utf8_decode_utf8(b@);
}

/// The first block and the size of the first partition of `layout` labelled as the EFI
/// system partition.
pub fn esp_of(layout: &DiskLayout) -> (r: Option<(u64, u64)>)
    ensures
        match first_esp(layout.partitions@) {
            Some(j) => r == Some((layout.partitions@[j].first_lba, layout.partitions@[j].sectors)),
            None => r is None,
        },
{
    let ps = &layout.partitions;
    let mut i: usize = 0;
    assert(ps@.subrange(0, 0) =~= Seq::<Partition>::empty());
    while i < ps.len()
        invariant
            i <= ps@.len(),
            ps@ == layout.partitions@,
            first_esp(ps@.subrange(0, i as int)) is None,
        decreases ps@.len() - i,
    {
        let p = &ps[i];
        assert(ps@.subrange(0, i + 1).drop_last() =~= ps@.subrange(0, i as int));
        assert(ps@.subrange(0, i + 1).last() == ps@[i as int]);
        if bytes_eq(p.label.as_bytes(), "EFI Sistem".as_bytes()) {
            proof {
                lemma_same_bytes(p.label, "EFI Sistem");
                assert(ps@.subrange(0, i + 1).last().label@ == "EFI Sistem"@);
                assert(first_esp(ps@.subrange(0, i + 1)) == Some(i as int));
                lemma_first_esp_prefix(ps@, i + 1);
            }
            return Some((p.first_lba, p.sectors));
        }
        proof {
            if p.label@ == "EFI Sistem"@ {
                assert(p.label.spec_bytes() == "EFI Sistem".spec_bytes());
            }
        }
        i = i + 1;
    }
    assert(ps@.subrange(0, i as int) =~= ps@);
    None
}

/// The first block and the size of the EFI system partition of the disk behind `dev`: the
/// first partition that `read_disk` lists and labels as one.
pub fn find_esp<D: BlockDevice>(dev: &mut D, total: u64) -> (r: Option<(u64, u64)>)
    ensures
        disk_of(final(dev)) == disk_of(old(dev)),
        r matches Some((f, n)) ==> {
            let h = disk_of(old(dev))(1);
            &&& header_ok(h)
            &&& size_ok(h)
            &&& exists|ps: Seq<Partition>, k: int|
                #![trigger lists_upto(ps, disk_of(old(dev)), h, k)]
                0 <= k <= entry_count(h) && lists_upto(ps, disk_of(old(dev)), h, k) && (first_esp(ps) matches Some(j)
                    && ps[j].first_lba == f && ps[j].sectors == n)
        },
        healthy(old(dev), 512) ==> healthy(final(dev), 512),
        healthy(old(dev), 512) && header_ok(disk_of(old(dev))(1)) && size_ok(disk_of(old(dev))(1))
            && entry_lba(disk_of(old(dev))(1)) < u64::MAX - 128 ==> exists|ps: Seq<Partition>|
            #[trigger] lists_upto(ps, disk_of(old(dev)), disk_of(old(dev))(1), entry_count(disk_of(old(dev))(1)))
                && fs_exact(ps, disk_of(old(dev))) && r == match first_esp(ps) {
                Some(j) => Some((ps[j].first_lba, ps[j].sectors)),
                None => None::<(u64, u64)>,
            },
{
    let layout = read_disk(dev, total);
    let r = esp_of(&layout);
    proof {
        lemma_first_esp_range(layout.partitions@);
        if r is Some {
            let h = disk_of(old(dev))(1);
            assert(layout.has_gpt);
            assert(size_ok(h));
            let k = choose|k: int| 0 <= k <= entry_count(h) && #[trigger] lists_upto(layout.partitions@, disk_of(old(dev)), h, k);
            assert(lists_upto(layout.partitions@, disk_of(old(dev)), h, k));
        }
    }
    r
}

} // verus!

verus! {

/// The volume label the installer writes into a boot block: `RUSTY OS` padded with spaces
/// to eleven bytes, at offset 71.
pub open spec fn rusty_label(b: Seq<u8>) -> bool {
    b.len() >= 82 && b.subrange(71, 82) == seq![0x52u8, 0x55, 0x53, 0x54, 0x59, 0x20, 0x4F, 0x53, 0x20, 0x20, 0x20]
}

/// Whether `b` carries the installer's volume label (see `rusty_label`).
fn has_rusty_label(b: &[u8]) -> (r: bool)
    requires
        b@.len() == 512,
    ensures
        r == rusty_label(b@),
{
    let label: [u8; 11] = [0x52, 0x55, 0x53, 0x54, 0x59, 0x20, 0x4F, 0x53, 0x20, 0x20, 0x20];
    let part = slice_of(b, 71, 82);
    let r = bytes_eq(part.as_slice(), label.as_slice());
    assert(label@ =~= seq![0x52u8, 0x55, 0x53, 0x54, 0x59, 0x20, 0x4F, 0x53, 0x20, 0x20, 0x20]);
    r
}

/// Whether `ps` lists the used entries among the first `n` of the table, for some `n` up to
/// the header's entry count.
#[verifier::opaque]
pub open spec fn listed_by(ps: Seq<Partition>, d: Disk, h: Seq<u8>) -> bool {
    exists|n: int| 0 <= n <= entry_count(h) && #[trigger] lists_upto(ps, d, h, n)
}

/// A partition that a table listing shows is one of the partitions some listing of the
/// table shows.
proof fn lemma_listed(ps: Seq<Partition>, d: Disk, h: Seq<u8>, i: int)
    requires
        listed_by(ps, d, h),
        0 <= i < ps.len(),
    ensures
        exists|qs: Seq<Partition>, k: int|
            #![trigger lists_upto(qs, d, h, k)]
            0 <= k <= entry_count(h) && lists_upto(qs, d, h, k) && exists|j: int|
                0 <= j < qs.len() && #[trigger] qs[j].first_lba == ps[i].first_lba && qs[j].sectors == ps[i].sectors,
{
    reveal(listed_by);
    let n = choose|n: int| 0 <= n <= entry_count(h) && #[trigger] lists_upto(ps, d, h, n);
    let w = ps[i];
    assert(ps[i].first_lba == w.first_lba && ps[i].sectors == w.sectors);
    assert(0 <= n <= entry_count(h) && lists_upto(ps, d, h, n));
}

/// Mounts the system volume of a disk of `block_count` blocks of `block_size` bytes on
/// interface `kind` (0 to 2): without a GUID partition table, the whole disk when it holds
/// a FAT32 volume; with one, the first listed partition that holds a FAT32 volume labelled
/// by the installer. Only 512-byte blocks are taken. The disk is only read; it is given back
/// when nothing is mounted.
pub fn mount_fat_smart<D: BlockDevice>(kind: u8, block_size: u32, block_count: u64, disk: D) -> (r: Result<
    Fat32FileSystem<PartitionDevice<D>>,
    D,
>)
    ensures
        block_size != 512 || kind > 2 || block_count == 0 ==> r is Err,
        r matches Err(d) ==> disk_of(&d) == disk_of(&disk),
        r matches Ok(fs) ==> ({
            let d0 = disk_of(&disk);
            let b = d0(fs.dev.start_lba);
            &&& fs.dev.kind == kind
            &&& disk_of(&fs.dev.disk) == d0
            &&& b.len() == 512 && boot_ok(b) && fs.fat == boot_params(b)
            &&& (fs.dev.start_lba == 0 && fs.dev.sectors == block_count) || ({
                let h = d0(1);
                &&& rusty_label(b)
                &&& header_ok(h)
                &&& size_ok(h)
                &&& exists|ps: Seq<Partition>, k: int|
                    #![trigger lists_upto(ps, d0, h, k)]
                    0 <= k <= entry_count(h) && lists_upto(ps, d0, h, k) && exists|j: int|
                        0 <= j < ps.len() && #[trigger] ps[j].first_lba == fs.dev.start_lba && ps[j].sectors == fs.dev.sectors
            })
        }),
{
    let ghost d0 = disk_of(&disk);
    let mut dk = disk;
    if block_size != 512 || kind > 2 || block_count == 0 {
        return Err(dk);
    }
    let mut hdr = zeroes(512);
    let has_gpt = if block_count > 1 && read_sector(&mut dk, 1, &mut hdr).is_ok() {
        let sig: [u8; 8] = [0x45, 0x46, 0x49, 0x20, 0x50, 0x41, 0x52, 0x54];
        let head = slice_of(hdr.as_slice(), 0, 8);
        bytes_eq(head.as_slice(), sig.as_slice())
    } else {
        false
    };
    if !has_gpt {
        let mut boot = zeroes(512);
        if read_sector(&mut dk, 0, &mut boot).is_err() {
            return Err(dk);
        }
        return match Fat32::from_boot_sector(boot.as_slice()) {
            Ok(fat) => Ok(Fat32FileSystem { fat, dev: PartitionDevice::new(kind, 0, block_count, dk) }),
            Err(_) => Err(dk),
        };
    }
    let layout = read_disk(&mut dk, block_count);
    let ghost h = d0(1);
    proof {
        reveal(listed_by);
    }
    let ps = &layout.partitions;
    let mut i: usize = 0;
    while i < ps.len()
        invariant
            block_size == 512,
            kind <= 2,
            block_count > 0,
            disk_of(&dk) == d0,
            d0 == disk_of(&disk),
            h == d0(1),
            ps == &layout.partitions,
            i <= ps@.len(),
            layout.has_gpt ==> header_ok(h),
            !layout.has_gpt ==> ps@.len() == 0,
            layout.has_gpt && !size_ok(h) ==> ps@.len() == 0,
            layout.has_gpt && size_ok(h) ==> listed_by(ps@, d0, h),
        decreases ps@.len() - i,
    {
        let first = ps[i].first_lba;
        let sectors = ps[i].sectors;
        let mut boot = zeroes(512);
        if read_sector(&mut dk, first, &mut boot).is_ok() {
            if let Ok(fat) = Fat32::from_boot_sector(boot.as_slice()) {
                if has_rusty_label(boot.as_slice()) {
                    proof {
                        assert(layout.has_gpt && size_ok(h));
                        lemma_listed(ps@, d0, h, i as int);
                    }
                    let fs = Fat32FileSystem { fat, dev: PartitionDevice::new(kind, first, sectors, dk) };
                    return Ok(fs);
                }
            }
        }
        i = i + 1;
    }
    Err(dk)
}

/// The installer never offers a partition that holds a system: of all partition types, only
/// a Microsoft basic data partition (type GUID EBD0A0A2-B9E5-4433-87C0-68B6B72699C7) that
/// does not hold NTFS is left unprotected; EFI, reserved, recovery, Linux, Linux LVM, Linux
/// swap and unknown partitions are all protected.
pub proof fn lemma_only_free_data_unprotected(tg: Seq<u8>, fs: u8)
    ensures
        !classify_spec(tg, fs).1 <==> (tg == seq![
            0xA2u8, 0xA0, 0xD0, 0xEB, 0xE5, 0xB9, 0x33, 0x44, 0x87, 0xC0, 0x68, 0xB6, 0xB7, 0x26, 0x99, 0xC7,
        ] && fs != 2),
{
    let data = seq![0xA2u8, 0xA0, 0xD0, 0xEB, 0xE5, 0xB9, 0x33, 0x44, 0x87, 0xC0, 0x68, 0xB6, 0xB7, 0x26, 0x99, 0xC7];
    assert(data =~= guid_msdata());
    if tg == data {
        assert(data[0] != guid_efi()[0]);
        assert(data[0] != guid_msr()[0]);
        assert(data[0] != guid_winre()[0]);
        assert(data[0] != guid_linux()[0]);
        assert(data[0] != guid_linux_lvm()[0]);
        assert(data[0] != guid_linux_swap()[0]);
    }
}

/// A partition of a Linux type (file system, LVM or swap, GUIDs 0FC63DAF-8483-4772-8E79-
/// 3D69D8477DE4, E6D6D379-F507-44C2-A23C-238F2A3DF928, 0657FD6D-A4AB-43C4-84E5-09332C84B4F4)
/// is protected whatever it appears to hold.
pub proof fn lemma_linux_protected(tg: Seq<u8>, fs: u8)
    requires
        tg == seq![0xAFu8, 0x3D, 0xC6, 0x0F, 0x83, 0x84, 0x72, 0x47, 0x8E, 0x79, 0x3D, 0x69, 0xD8, 0x47, 0x7D, 0xE4]
            || tg == seq![0x79u8, 0xD3, 0xD6, 0xE6, 0x07, 0xF5, 0xC2, 0x44, 0xA2, 0x3C, 0x23, 0x8F, 0x2A, 0x3D, 0xF9, 0x28]
            || tg == seq![0x6Du8, 0xFD, 0x57, 0x06, 0xAB, 0xA4, 0xC4, 0x43, 0x84, 0xE5, 0x09, 0x33, 0xC8, 0x4B, 0x4F, 0x4F],
    ensures
        classify_spec(tg, fs).1,
{
    lemma_only_free_data_unprotected(tg, fs);
    assert(tg[0] != 0xA2u8);
}

} // verus!

