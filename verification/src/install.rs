use vstd::prelude::*;
use vstd::string::StringSliceAdditionalSpecFns;
use crate::block::{BlockDevice, Disk, disk_of, disk_put, healthy, read_sector, write_sector};
use crate::fat32::{put_blocks, boot_ok, boot_params};
use crate::fsops::chunk;
use crate::bytes::{le16, le32, get_le32, slice_of, lemma_le32_of_bytes, splice, le16_bytes, le32_bytes, put_le16, put_le32, put_bytes, zeroes, ascii_upper, to_ascii_upper};

verus! {

/// End of a cluster chain.
pub const EOC: u32 = 0x0FFF_FFFF;

/// Reserved blocks before the first FAT of a volume the installer formats.
pub const RESERVED: u32 = 32;

/// Copies of the FAT on a volume the installer formats.
pub const NUM_FATS: u32 = 2;

/// The largest FAT, in blocks, the installer lays out.
pub const MAX_FAT: u32 = 8192;

/// The geometry of a FAT32 volume as the installer lays it out.
#[derive(Clone, Copy)]
pub struct Geom {
    pub bps: u32,
    pub spc: u32,
    pub reserved: u32,
    pub num_fats: u32,
    pub fat_size: u32,
    pub total_sectors: u32,
    pub root_cluster: u32,
    pub fat_start: u64,
    pub data_start: u64,
}

/// Blocks per cluster for a volume of `ds` blocks: 8 up to 1 GiB, then 16, 32 and 64 up
/// to 8, 32 and 128 GiB, and 128 above.
pub open spec fn spc_for(ds: u32) -> u32 {
    if ds <= 0x0020_0000 {
        8
    } else if ds <= 0x0100_0000 {
        16
    } else if ds <= 0x0400_0000 {
        32
    } else if ds <= 0x1000_0000 {
        64
    } else {
        128
    }
}

/// Blocks per cluster for a volume of `ds` blocks: see `spc_for`.
pub fn pick_spc(ds: u32) -> (r: u32)
    ensures
        r == spc_for(ds),
{
    if ds <= 0x0020_0000 {
        8
    } else if ds <= 0x0100_0000 {
        16
    } else if ds <= 0x0400_0000 {
        32
    } else if ds <= 0x1000_0000 {
        64
    } else {
        128
    }
}

/// The blocks one FAT needs for a volume of `total` blocks with clusters of `spc` blocks:
/// the blocks after the reserved ones over `(256 * spc + NUM_FATS) / 2`, rounded up.
pub open spec fn fat_blocks(total: int, spc: int) -> int {
    let per = (256 * spc + NUM_FATS) / 2;
    (total - RESERVED + per - 1) / per
}

/// The largest volume the installer lays out, in blocks: one whose FAT of `MAX_FAT`
/// blocks covers clusters of 128 blocks.
pub open spec fn max_total() -> int {
    MAX_FAT * ((256 * 128 + NUM_FATS) / 2) + RESERVED
}

/// Cluster size, volume size and FAT size for a volume of `total` blocks, trying clusters
/// of `spc` blocks and then twice as large, until the FAT fits in `MAX_FAT` blocks; past
/// clusters of 128 blocks the volume is cut down to `max_total()` blocks.
pub open spec fn plan_from(total: int, spc: int) -> (int, int, int)
    decreases 256 - spc,
    when spc >= 1
{
    if fat_blocks(total, spc) <= MAX_FAT {
        (spc, total, fat_blocks(total, spc))
    } else if spc < 128 {
        plan_from(total, spc * 2)
    } else {
        (128, max_total(), fat_blocks(max_total(), 128))
    }
}

/// The FATs and reserved blocks of a volume of at least 8192 blocks leave room for data.
proof fn lemma_fat_fits(total: int, spc: int)
    requires
        total >= 8192,
        spc >= 8,
    ensures
        RESERVED + NUM_FATS * fat_blocks(total, spc) < total,
        fat_blocks(total, spc) >= 0,
{
    let per = (256 * spc + NUM_FATS) / 2;
    let fat = fat_blocks(total, spc);
    assert(per >= 1025);
    let x = total - RESERVED + per - 1;
    vstd::arithmetic::div_mod::lemma_fundamental_div_mod(x, per);
    vstd::arithmetic::div_mod::lemma_div_pos_is_pos(x, per);
    assert(fat == x / per);
    assert(per * fat <= x);
    assert(1025 * fat <= per * fat) by (nonlinear_arith)
        requires per >= 1025, fat >= 0;
    assert(RESERVED + NUM_FATS * fat < total) by (nonlinear_arith)
        requires 1025 * fat <= total - RESERVED + per - 1, per <= 256 * spc, total >= 8192, fat >= 0,
            spc <= 128 || spc > 128, 1025 * fat <= per * fat, per * fat <= x, x == total - RESERVED + per - 1;
}

/// A FAT of at most `MAX_FAT` blocks covers fewer than 2^24 clusters of the volume.
proof fn lemma_cluster_count(total: int, spc: int, data_start: int)
    requires
        total >= 8192,
        8 <= spc <= 128,
        fat_blocks(total, spc) <= MAX_FAT,
        RESERVED <= data_start <= total,
    ensures
        (total - data_start) / spc < 0x0100_0000,
{
    let per = (256 * spc + NUM_FATS) / 2;
    let fat = fat_blocks(total, spc);
    let x = total - RESERVED + per - 1;
    vstd::arithmetic::div_mod::lemma_fundamental_div_mod(x, per);
    assert(x % per < per);
    assert(fat == x / per);
    assert(total - RESERVED < per * (fat + 1)) by (nonlinear_arith)
        requires x == per * fat + x % per, x % per < per, x == total - RESERVED + per - 1, per > 0;
    assert(per * (fat + 1) <= per * (MAX_FAT + 1)) by (nonlinear_arith)
        requires fat <= MAX_FAT, per >= 0;
    assert(per <= 129 * spc);
    assert(per * (MAX_FAT + 1) <= 129 * spc * (MAX_FAT + 1)) by (nonlinear_arith)
        requires per <= 129 * spc;
    let q = (total - data_start) / spc;
    vstd::arithmetic::div_mod::lemma_fundamental_div_mod(total - data_start, spc);
    assert(q * spc <= total - data_start);
    assert(q < 0x0100_0000) by (nonlinear_arith)
        requires q * spc <= total - data_start, total - data_start <= total - RESERVED,
            total - RESERVED < 129 * spc * (MAX_FAT + 1), spc >= 8;
}

/// The geometry of a volume laid out on `disk_sectors` blocks (at least 8192 blocks are
/// assumed): 512-byte blocks, `RESERVED` reserved blocks, `NUM_FATS` FATs, root in
/// cluster 2, and cluster, volume and FAT size by `plan_from` from the cluster size
/// `spc_for` picks.
pub open spec fn plan_spec(disk_sectors: u32) -> Geom {
    let total = if disk_sectors < 8192 { 8192int } else { disk_sectors as int };
    let p = plan_from(total, spc_for(disk_sectors) as int);
    Geom {
        bps: 512,
        spc: p.0 as u32,
        reserved: RESERVED,
        num_fats: NUM_FATS,
        fat_size: p.2 as u32,
        total_sectors: p.1 as u32,
        root_cluster: 2,
        fat_start: RESERVED as u64,
        data_start: (RESERVED + NUM_FATS * p.2) as u64,
    }
}

/// The geometry of a volume laid out on `disk_sectors` blocks: see `plan_spec`.
pub fn plan(disk_sectors: u32) -> (g: Geom)
    requires
        disk_sectors <= u32::MAX - 16384,
    ensures
        g == plan_spec(disk_sectors),
        g.fat_size <= MAX_FAT,
        g.spc <= 128,
        g.spc >= 8,
        8192 <= g.total_sectors,
        g.bps == 512,
        g.reserved == RESERVED,
        g.num_fats == NUM_FATS,
        g.root_cluster == 2,
        g.fat_start == RESERVED,
        g.data_start == RESERVED + NUM_FATS * g.fat_size,
        g.data_start < g.total_sectors,
        (g.total_sectors - g.data_start) / (g.spc as int) < 0x0100_0000,
{
    let bps: u32 = 512;
    let reserved: u32 = RESERVED;
    let num_fats: u32 = NUM_FATS;
    let mut spc = pick_spc(disk_sectors);
    let mut total: u32 = if disk_sectors < 8192 { 8192 } else { disk_sectors };
    let ghost t0 = total as int;
    let mut fat_size: u32;
    assert(spc == 8 || spc == 16 || spc == 32 || spc == 64 || spc == 128);
    loop
        invariant_except_break
            spc == 8 || spc == 16 || spc == 32 || spc == 64 || spc == 128,
            total == t0,
            plan_from(t0, spc as int) == plan_from(t0, spc_for(disk_sectors) as int),
        invariant
            8192 <= t0 <= u32::MAX - 16384,
            reserved == RESERVED,
            num_fats == NUM_FATS,
        ensures
            (spc as int, total as int, fat_size as int) == plan_from(t0, spc_for(disk_sectors) as int),
            fat_size <= MAX_FAT,
            8 <= spc <= 128,
            8192 <= total,
            RESERVED + NUM_FATS * fat_size < total,
            (total - (RESERVED + NUM_FATS * fat_size)) / (spc as int) < 0x0100_0000,
        decreases 256 - spc,
    {
        let tmp1: u32 = total - reserved;
        let tmp2: u32 = (256 * spc + num_fats) / 2;
        fat_size = (tmp1 + (tmp2 - 1)) / tmp2;
        assert(fat_size as int == fat_blocks(t0, spc as int));
        proof {
            lemma_fat_fits(t0, spc as int);
            if fat_size <= MAX_FAT {
                lemma_cluster_count(t0, spc as int, RESERVED + NUM_FATS * fat_size);
            }
        }
        if fat_size <= MAX_FAT {
            break;
        }
        if spc < 128 {
            spc = spc * 2;
        } else {
            let tmp2b: u32 = (256 * 128 + num_fats) / 2;
            total = MAX_FAT * tmp2b + reserved;
            spc = 128;
            let t1: u32 = total - reserved;
            fat_size = (t1 + (tmp2b - 1)) / tmp2b;
            assert(fat_size as int == fat_blocks(max_total(), 128));
            assert(fat_size == MAX_FAT);
            proof {
                lemma_fat_fits(max_total(), 128);
                lemma_cluster_count(max_total(), 128, RESERVED + NUM_FATS * fat_size);
            }
            break;
        }
    }
    let fat_start: u64 = reserved as u64;
    let data_start: u64 = (reserved + num_fats * fat_size) as u64;
    Geom { bps, spc, reserved, num_fats, fat_size, total_sectors: total, root_cluster: 2, fat_start, data_start }
}

/// `RUSTYOS `, the OEM name of a volume the installer formats.
pub open spec fn oem_name() -> Seq<u8> {
    seq![0x52u8, 0x55, 0x53, 0x54, 0x59, 0x4F, 0x53, 0x20]
}

/// `RUSTY OS` padded to eleven bytes, the volume label the kernel looks for when it mounts
/// its system volume.
pub open spec fn volume_label() -> Seq<u8> {
    seq![0x52u8, 0x55, 0x53, 0x54, 0x59, 0x20, 0x4F, 0x53, 0x20, 0x20, 0x20]
}

/// `FAT32` padded to eight bytes, the file system type string.
pub open spec fn fs_type() -> Seq<u8> {
    seq![0x46u8, 0x41, 0x54, 0x33, 0x32, 0x20, 0x20, 0x20]
}

/// `n` zero bytes.
pub open spec fn zero_bytes(n: nat) -> Seq<u8> {
    Seq::new(n, |i: int| 0u8)
}

/// The first part of a boot sector of geometry `g` written over `b`: a jump, the OEM name,
/// block size, cluster size, reserved blocks, FAT count and media 0xF8.
pub open spec fn boot_head(b: Seq<u8>, g: Geom) -> Seq<u8> {
    let b = splice(b, 0, seq![0xEBu8, 0x58, 0x90]);
    let b = splice(b, 3, oem_name());
    let b = splice(b, 11, le16_bytes(g.bps as u16));
    let b = b.update(13, g.spc as u8);
    let b = splice(b, 14, le16_bytes(g.reserved as u16));
    let b = b.update(16, g.num_fats as u8);
    b.update(21, 0xF8u8)
}

/// The middle part of a boot sector of geometry `g` written over `b`: 63 sectors by 255
/// heads, volume size, FAT size, root cluster, FSInfo in block 1 and backup boot sector in
/// block 6.
pub open spec fn boot_geom(b: Seq<u8>, g: Geom) -> Seq<u8> {
    let b = splice(b, 24, le16_bytes(63));
    let b = splice(b, 26, le16_bytes(255));
    let b = splice(b, 32, le32_bytes(g.total_sectors));
    let b = splice(b, 36, le32_bytes(g.fat_size));
    let b = splice(b, 44, le32_bytes(g.root_cluster));
    let b = splice(b, 48, le16_bytes(1));
    splice(b, 50, le16_bytes(6))
}

/// The last part of a boot sector written over `b`: drive 0x80, an extended boot
/// signature, serial 0x52555354, the volume label and type, and the boot signature.
pub open spec fn boot_tail(b: Seq<u8>) -> Seq<u8> {
    let b = b.update(64, 0x80u8);
    let b = b.update(66, 0x29u8);
    let b = splice(b, 67, le32_bytes(0x5255_5354));
    let b = splice(b, 71, volume_label());
    let b = splice(b, 82, fs_type());
    let b = b.update(510, 0x55u8);
    b.update(511, 0xAAu8)
}

/// The boot sector of a volume of geometry `g`: `boot_head`, `boot_geom` and `boot_tail`
/// over 512 zero bytes.
#[verifier::opaque]
pub open spec fn boot_image(g: Geom) -> Seq<u8> {
    boot_tail(boot_geom(boot_head(zero_bytes(512), g), g))
}

fn put_boot_head(b: &mut Vec<u8>, g: &Geom)
    requires
        old(b)@.len() == 512,
    ensures
        final(b)@ == boot_head(old(b)@, *g),
{
    let jump: [u8; 3] = [0xEB, 0x58, 0x90];
    let oem: [u8; 8] = [0x52, 0x55, 0x53, 0x54, 0x59, 0x4F, 0x53, 0x20];
    assert(jump@ =~= seq![0xEBu8, 0x58, 0x90]);
    assert(oem@ =~= oem_name());
    put_bytes(b, 0, jump.as_slice());
    put_bytes(b, 3, oem.as_slice());
    put_le16(b, 11, g.bps as u16);
    b.set(13, g.spc as u8);
    put_le16(b, 14, g.reserved as u16);
    b.set(16, g.num_fats as u8);
    b.set(21, 0xF8);
}

fn put_boot_geom(b: &mut Vec<u8>, g: &Geom)
    requires
        old(b)@.len() == 512,
    ensures
        final(b)@ == boot_geom(old(b)@, *g),
{
    put_le16(b, 24, 63);
    put_le16(b, 26, 255);
    put_le32(b, 32, g.total_sectors);
    put_le32(b, 36, g.fat_size);
    put_le32(b, 44, g.root_cluster);
    put_le16(b, 48, 1);
    put_le16(b, 50, 6);
}

fn put_boot_tail(b: &mut Vec<u8>)
    requires
        old(b)@.len() == 512,
    ensures
        final(b)@ == boot_tail(old(b)@),
{
    let label: [u8; 11] = [0x52, 0x55, 0x53, 0x54, 0x59, 0x20, 0x4F, 0x53, 0x20, 0x20, 0x20];
    let kind: [u8; 8] = [0x46, 0x41, 0x54, 0x33, 0x32, 0x20, 0x20, 0x20];
    assert(label@ =~= volume_label());
    assert(kind@ =~= fs_type());
    b.set(64, 0x80);
    b.set(66, 0x29);
    put_le32(b, 67, 0x5255_5354);
    put_bytes(b, 71, label.as_slice());
    put_bytes(b, 82, kind.as_slice());
    b.set(510, 0x55);
    b.set(511, 0xAA);
}

/// The boot sector of a volume of geometry `g`: see `boot_image`.
pub fn build_boot_sector(g: &Geom) -> (r: Vec<u8>)
    ensures
        r@ == boot_image(*g),
        r@.len() == 512,
{
    let mut b = zeroes(512);
    assert(b@ =~= zero_bytes(512));
    put_boot_head(&mut b, g);
    put_boot_geom(&mut b, g);
    put_boot_tail(&mut b);
    proof {
        reveal(boot_image);
    }
    b
}

/// The FSInfo block of a new volume: its three signatures, and free count and next free
/// cluster both unknown (all ones); every other byte zero.
pub open spec fn fsinfo_image() -> Seq<u8> {
    let b = zero_bytes(512);
    let b = splice(b, 0, le32_bytes(0x4161_5252));
    let b = splice(b, 484, le32_bytes(0x6141_7272));
    let b = splice(b, 488, le32_bytes(0xFFFF_FFFF));
    let b = splice(b, 492, le32_bytes(0xFFFF_FFFF));
    splice(b, 508, le32_bytes(0xAA55_0000))
}

/// The FSInfo block of a new volume: see `fsinfo_image`.
pub fn build_fsinfo() -> (r: Vec<u8>)
    ensures
        r@ == fsinfo_image(),
        r@.len() == 512,
{
    let mut b = zeroes(512);
    put_le32(&mut b, 0, 0x4161_5252);
    put_le32(&mut b, 484, 0x6141_7272);
    put_le32(&mut b, 488, 0xFFFF_FFFF);
    put_le32(&mut b, 492, 0xFFFF_FFFF);
    put_le32(&mut b, 508, 0xAA55_0000);
    b
}

/// The 8.3 name with base `base` and extension `ext`: the first eight bytes of the base
/// and the first three of the extension in upper case, each padded with spaces.
pub open spec fn name3_spec(base: Seq<u8>, ext: Seq<u8>) -> Seq<u8> {
    Seq::new(11, |i: int|
        if i < 8 {
            if i < base.len() { ascii_upper(base[i]) } else { 32u8 }
        } else {
            if i - 8 < ext.len() { ascii_upper(ext[i - 8]) } else { 32u8 }
        })
}

/// The 8.3 name of a directory or file named `name` with no extension: see `name3_spec`.
pub fn sn(name: &[u8]) -> (r: [u8; 11])
    ensures
        r@ == name3_spec(name@, seq![]),
{
    sn3(name, &[])
}

/// The 8.3 name with base `base` and extension `ext`: see `name3_spec`.
pub fn sn3(base: &[u8], ext: &[u8]) -> (r: [u8; 11])
    ensures
        r@ == name3_spec(base@, ext@),
{
    let mut o = [32u8; 11];
    let n: usize = if base.len() < 8 { base.len() } else { 8 };
    let mut i: usize = 0;
    while i < n
        invariant
            n <= 8,
            n <= base@.len(),
            n == (if base@.len() < 8 { base@.len() } else { 8 }),
            i <= n,
            forall|k: int| 0 <= k < i ==> o@[k] == ascii_upper(base@[k]),
            forall|k: int| i <= k < 11 ==> o@[k] == 32u8,
        decreases n - i,
    {
        o[i] = to_ascii_upper(base[i]);
        i = i + 1;
    }
    let m: usize = if ext.len() < 3 { ext.len() } else { 3 };
    let mut j: usize = 0;
    while j < m
        invariant
            n == (if base@.len() < 8 { base@.len() } else { 8 }),
            m <= 3,
            m <= ext@.len(),
            m == (if ext@.len() < 3 { ext@.len() } else { 3 }),
            j <= m,
            forall|k: int| 0 <= k < n ==> o@[k] == ascii_upper(base@[k]),
            forall|k: int| n <= k < 8 ==> o@[k] == 32u8,
            forall|k: int| 8 <= k < 8 + j ==> o@[k] == ascii_upper(ext@[k - 8]),
            forall|k: int| 8 + j <= k < 11 ==> o@[k] == 32u8,
        decreases m - j,
    {
        o[8 + j] = to_ascii_upper(ext[j]);
        j = j + 1;
    }
    assert(o@ =~= name3_spec(base@, ext@));
    o
}

/// A directory record's 32 bytes `e` with first cluster `first` (high half at 20, low half
/// at 26) and size `size` (at 28) written in.
pub open spec fn with_cluster(e: Seq<u8>, first: u32, size: u32) -> Seq<u8> {
    let e = splice(e, 20, le16_bytes((first / 0x1_0000) as u16));
    let e = splice(e, 26, le16_bytes((first % 0x1_0000) as u16));
    splice(e, 28, le32_bytes(size))
}

/// Writes first cluster `first` and size `size` into the directory record `e`.
pub fn put_cluster(e: &mut Vec<u8>, first: u32, size: u32)
    requires
        old(e)@.len() == 32,
    ensures
        final(e)@ == with_cluster(old(e)@, first, size),
{
    let hi: u16 = (first >> 16u32) as u16;
    let lo: u16 = (first & 0xFFFF) as u16;
    assert(hi == (first / 0x1_0000) as u16 && lo == (first % 0x1_0000) as u16) by (bit_vector)
        requires hi == (first >> 16u32) as u16, lo == (first & 0xFFFF) as u16;
    put_le16(e, 20, hi);
    put_le16(e, 26, lo);
    put_le32(e, 28, size);
}

/// The registry a new system starts from, one `path=type:value` line per setting.
pub open spec fn default_registry_text() -> Seq<u8> {
    "Sistem/Ad=str:Rusty OS\nSistem/Surum=str:0.1\nSistem/Dil=str:tr\nSistem/Masaustu/Renk=u32:5249032\nSistem/Taskbar/Renk=u32:2101256\nSistem/Saat/UTC=u32:3\nSistem/Saat/24Saat=bool:0\nSistem/Ses/Seviye=u32:100\nOturum/IlkKurulumBitti=bool:0\n".spec_bytes()
}

/// The registry file a new system starts from: the default settings, then line feeds up to
/// 4096 bytes.
pub open spec fn registry_image() -> Seq<u8> {
    let h = default_registry_text();
    Seq::new(4096, |i: int| if i < h.len() { h[i] } else { 10u8 })
}

/// The registry file a new system starts from: see `registry_image`.
pub fn build_registry() -> (r: Vec<u8>)
    ensures
        r@ == registry_image(),
{
    let hdr = "Sistem/Ad=str:Rusty OS\nSistem/Surum=str:0.1\nSistem/Dil=str:tr\nSistem/Masaustu/Renk=u32:5249032\nSistem/Taskbar/Renk=u32:2101256\nSistem/Saat/UTC=u32:3\nSistem/Saat/24Saat=bool:0\nSistem/Ses/Seviye=u32:100\nOturum/IlkKurulumBitti=bool:0\n".as_bytes();
    let ghost h = default_registry_text();
    assert(hdr@ == h);
    let mut b: Vec<u8> = Vec::new();
    let mut i: usize = 0;
    while i < 4096
        invariant
            i <= 4096,
            hdr@ == h,
            b@.len() == i,
            forall|k: int| 0 <= k < i ==> b@[k] == (if k < h.len() { h[k] } else { 10u8 }),
        decreases 4096 - i,
    {
        if i < hdr.len() {
            b.push(hdr[i]);
        } else {
            b.push(10u8);
        }
        i = i + 1;
    }
    assert(b@ =~= registry_image());
    b
}

/// The 8.3 name `.`.
pub open spec fn dot_name() -> Seq<u8> {
    seq![0x2Eu8, 0x20, 0x20, 0x20, 0x20, 0x20, 0x20, 0x20, 0x20, 0x20, 0x20]
}

/// The 8.3 name `..`.
pub open spec fn dotdot_name() -> Seq<u8> {
    seq![0x2Eu8, 0x2E, 0x20, 0x20, 0x20, 0x20, 0x20, 0x20, 0x20, 0x20, 0x20]
}

/// The first block of a new directory at cluster `c` whose parent is `pc`: its `.` and `..`
/// records, then zeros.
pub open spec fn dot_block(c: u32, pc: u32) -> Seq<u8> {
    splice(splice(zero_bytes(512), 0, dir_record(dot_name(), 0x10, c, 0)), 32, dir_record(dotdot_name(), 0x10, pc, 0))
}

/// How many clusters of `spc` blocks a file of `size` bytes takes: at least one.
pub open spec fn run_len(spc: u32, size: int) -> int {
    if size == 0 {
        1
    } else {
        (size + spc * 512 - 1) / (spc * 512)
    }
}

impl Geom {
    /// `disk` once `data`, padded with zeros, fills the run of `n` clusters from `start`, and
    /// the run is chained in the FAT.
    pub open spec fn file_disk(&self, disk: Disk, start: u32, n: u32, data: Seq<u8>) -> Disk {
        let blocks = (n * self.spc) as nat;
        let d1 = put_blocks(disk, self.lba_of(start), chunk(data, 0, blocks * 512), 512, blocks);
        self.chain_put(d1, start, n, n as int)
    }

    /// `disk` once cluster `c` is made a new directory of `parent`: the cluster zeroed, its
    /// first block holding `dot_block` (`..` naming cluster 0 for the root), its FAT entry
    /// ending a chain.
    pub open spec fn new_dir_disk(&self, disk: Disk, c: u32, parent: u32) -> Disk {
        let pc: u32 = if parent == self.root_cluster { 0 } else { parent };
        let d1 = put_blocks(disk, self.lba_of(c), zero_bytes(512 * self.spc as nat), 512, self.spc as nat);
        let d2 = disk_put(d1, self.lba_of(c) as u64, dot_block(c, pc));
        self.entry_put(d2, c, EOC)
    }

    /// Whether record `o` of block `s` of cluster `c` on `disk` is free: never used or deleted.
    pub open spec fn free_at(&self, disk: Disk, c: u32, s: int, o: int) -> bool {
        let b = disk((self.lba_of(c) + s) as u64);
        b[o] == 0 || b[o] == 0xE5
    }

    /// Whether cluster `c` on `disk` holds a free record.
    pub open spec fn cluster_has_free(&self, disk: Disk, c: u32) -> bool {
        exists|s: int, o: int| 0 <= s < self.spc && 0 <= o < 512 && o % 32 == 0 && #[trigger] self.free_at(disk, c, s, o)
    }

    /// Whether a free record lies in one of the first `n` clusters of the chain from `c`,
    /// following entries from 2 up to below the end-of-chain marks.
    pub open spec fn free_within(&self, disk: Disk, c: u32, n: nat) -> bool
        decreases n,
    {
        n > 0 && (self.cluster_has_free(disk, c) || (2 <= self.entry(disk, c) < 0x0FFF_FFF8
            && self.free_within(disk, self.entry(disk, c) as u32, (n - 1) as nat)))
    }

    /// The block of the first FAT that holds the entry of cluster `c`.
    pub open spec fn fat_block(&self, c: u32) -> u64 {
        (self.fat_start + (c as int * 4) / 512) as u64
    }

    /// Where in its block the FAT entry of cluster `c` starts.
    pub open spec fn fat_pos(&self, c: u32) -> int {
        (c as int * 4) % 512
    }

    /// The first block of cluster `c`.
    pub open spec fn lba_of(&self, c: u32) -> int {
        self.data_start + (c - 2) * self.spc
    }

    /// The value of the FAT entry of cluster `c` on `disk` (its low 28 bits).
    pub open spec fn entry(&self, disk: Disk, c: u32) -> int {
        le32(disk(self.fat_block(c)), self.fat_pos(c)) % 0x1000_0000
    }

    /// `disk` with the FAT entry of cluster `c` set to `val` in the first FAT and in the
    /// second, one FAT further on.
    pub open spec fn entry_put(&self, disk: Disk, c: u32, val: u32) -> Disk {
        let s = self.fat_block(c);
        let buf = splice(disk(s), self.fat_pos(c), le32_bytes(val));
        disk_put(disk_put(disk, s, buf), (s + self.fat_size) as u64, buf)
    }

    /// `disk` with the FAT entries of the `k` clusters from `start` set to a chain of `n`
    /// clusters: each to the next and the last to the end-of-chain mark.
    pub open spec fn chain_put(&self, disk: Disk, start: u32, n: u32, k: int) -> Disk
        decreases k,
    {
        if k <= 0 {
            disk
        } else {
            let c = (start + k - 1) as u32;
            let val = if k == n { EOC } else { (c + 1) as u32 };
            self.entry_put(self.chain_put(disk, start, n, k - 1), c, val)
        }
    }
}

/// Whether `b` holds what `a` holds in every block before the FATs of a volume the
/// installer formats (the boot sectors and FSInfo blocks among them).
pub open spec fn keeps_low(a: Disk, b: Disk) -> bool {
    forall|l: u64| l < RESERVED ==> #[trigger] b(l) == a(l)
}

/// The 32-byte directory record of an entry named `name` with attributes `attr`, first
/// cluster `first` and size `size`.
pub open spec fn dir_record(name: Seq<u8>, attr: u8, first: u32, size: u32) -> Seq<u8> {
    with_cluster(splice(zero_bytes(32), 0, name).update(11, attr), first, size)
}

/// Whether some block of `disk` holds the record `rec` at a record boundary.
pub open spec fn has_record(disk: Disk, rec: Seq<u8>) -> bool {
    exists|lba: u64, off: int|
        0 <= off && off + 32 <= 512 && off % 32 == 0 && #[trigger] disk(lba).subrange(off, off + 32) == rec
}

/// Reports how far installation has got: step `step` of the installation list at `pct`
/// percent.
pub trait Progress {
    /// Whether the receiver keeps a record of the reports it was given (see `reports`); the
    /// default, for receivers written outside the verified code, keeps none.
    closed spec fn logs(&self) -> bool {
        false
    }

    /// The reports received so far, oldest first, for a receiver that keeps them.
    closed spec fn reports(&self) -> Seq<(usize, u32)> {
        Seq::empty()
    }

    /// Reports that step `step` is `pct` percent done.
    fn report(&mut self, step: usize, pct: u32)
        ensures
            final(self).logs() == old(self).logs(),
            old(self).logs() ==> final(self).reports() == old(self).reports().push((step, pct)),
    ;
}

/// The state of formatting a volume: its geometry, the next cluster not yet handed out and
/// the last cluster of the volume.
pub struct Fmt {
    pub g: Geom,
    pub next_free: u32,
    pub max_cluster: u32,
}

impl Fmt {
    /// The geometry is one `plan` lays out and clusters are handed out in order from 3 on,
    /// never past the last.
    pub open spec fn wf(&self) -> bool {
        &&& self.g.bps == 512
        &&& self.g.reserved == RESERVED
        &&& self.g.num_fats == NUM_FATS
        &&& self.g.fat_start == RESERVED
        &&& self.g.fat_size <= MAX_FAT
        &&& self.g.data_start == RESERVED + NUM_FATS * self.g.fat_size
        &&& 8 <= self.g.spc <= 128
        &&& self.g.root_cluster == 2
        &&& self.max_cluster < 0x0100_0002
        &&& 3 <= self.next_free <= self.max_cluster + 1
    }

    /// The formatter for a volume of geometry `g` (as `plan` gives it): clusters 3 up to the
    /// last cluster the volume's data area holds are free.
    pub fn new(g: Geom) -> (r: Fmt)
        requires
            g.bps == 512,
            g.reserved == RESERVED,
            g.num_fats == NUM_FATS,
            g.fat_start == RESERVED,
            g.fat_size <= MAX_FAT,
            g.data_start == RESERVED + NUM_FATS * g.fat_size,
            g.data_start < g.total_sectors,
            8 <= g.spc <= 128,
            g.root_cluster == 2,
            (g.total_sectors - g.data_start) / (g.spc as int) < 0x0100_0000,
        ensures
            r.g == g,
            r.next_free == 3,
            r.max_cluster == 2 + (g.total_sectors - g.data_start) / (g.spc as int),
            r.wf(),
    {
        let span: u64 = g.total_sectors as u64 - g.data_start;
        let n: u64 = span / g.spc as u64;
        Fmt { g, next_free: 3, max_cluster: 2 + n as u32 }
    }

    /// The first block of cluster `c`.
    pub fn cluster_lba(&self, c: u32) -> (r: u64)
        requires
            self.wf(),
            2 <= c,
        ensures
            r == self.g.lba_of(c),
            r <= 0x100_0000_0000,
            r >= self.g.data_start,
    {
        let k: u64 = c as u64 - 2;
        let spc: u64 = self.g.spc as u64;
        assert(k * spc <= 0xFFFF_FFFF * 128) by (nonlinear_arith)
            requires k <= 0xFFFF_FFFF, spc <= 128;
        self.g.data_start + k * spc
    }

    /// Hands out the `n` clusters from the next free one on; refused when `n` is zero or they
    /// would pass the last cluster.
    pub fn alloc_run(&mut self, n: u32) -> (r: Result<u32, &'static str>)
        requires
            old(self).wf(),
        ensures
            final(self).wf(),
            final(self).g == old(self).g,
            final(self).max_cluster == old(self).max_cluster,
            n == 0 || old(self).next_free + n > old(self).max_cluster <==> r is Err,
            r is Err ==> final(self).next_free == old(self).next_free,
            r matches Ok(s) ==> s == old(self).next_free && final(self).next_free == old(self).next_free + n,
    {
        if n == 0 || self.next_free > self.max_cluster || n > self.max_cluster - self.next_free {
            return Err("There is no space in the target section");
        }
        let s = self.next_free;
        self.next_free = self.next_free + n;
        Ok(s)
    }

    /// The value of the FAT entry of cluster `c`.
    #[verifier::spinoff_prover]
    #[verifier::rlimit(30)]
    pub fn fat_next<D: BlockDevice>(&self, dev: &mut D, c: u32) -> (r: Result<u32, &'static str>)
        requires
            self.wf(),
            c < 0x4000_0000,
        ensures
            disk_of(final(dev)) == disk_of(old(dev)),
            r matches Ok(v) ==> v == self.g.entry(disk_of(old(dev)), c),
            healthy(old(dev), 512) ==> r is Ok && healthy(final(dev), 512),
    {
        let off: u64 = c as u64 * 4;
        let sector: u64 = self.g.fat_start + off / 512;
        let o: usize = (off % 512) as usize;
        let mut sec = zeroes(512);
        read_sector(dev, sector, &mut sec)?;
        let v = get_le32(sec.as_slice(), o);
        assert(v & 0x0FFF_FFFF == v % 0x1000_0000) by (bit_vector);
        Ok(v & 0x0FFF_FFFF)
    }

    /// Sets the FAT entry of `cluster` to `val` in both FATs.
    #[verifier::spinoff_prover]
    #[verifier::rlimit(40)]
    pub fn set_fat<D: BlockDevice>(&self, dev: &mut D, cluster: u32, val: u32) -> (r: Result<(), &'static str>)
        requires
            self.wf(),
            cluster < 0x4000_0000,
        ensures
            keeps_low(disk_of(old(dev)), disk_of(final(dev))),
            r is Ok ==> disk_of(final(dev)) == self.g.entry_put(disk_of(old(dev)), cluster, val),
            healthy(old(dev), 512) ==> r is Ok && healthy(final(dev), 512),
    {
        let off: u64 = cluster as u64 * 4;
        let sector: u64 = self.g.fat_start + off / 512;
        let o: usize = (off % 512) as usize;
        assert(sector == self.g.fat_block(cluster));
        assert(o == self.g.fat_pos(cluster));
        let mut sec = zeroes(512);
        let ghost d0 = disk_of(dev);
        match read_sector(dev, sector, &mut sec) {
            Err(e) => return Err(e),
            Ok(()) => {},
        }
        assert(sec@ == d0(sector));
        put_le32(&mut sec, o, val);
        let ghost buf = sec@;
        assert(buf == splice(d0(sector), self.g.fat_pos(cluster), le32_bytes(val)));
        match write_sector(dev, sector, sec.as_slice()) {
            Err(e) => return Err(e),
            Ok(()) => {},
        }
        let backup: u64 = sector + self.g.fat_size as u64;
        match write_sector(dev, backup, sec.as_slice()) {
            Err(e) => return Err(e),
            Ok(()) => {},
        }
        assert(disk_of(dev) == disk_put(disk_put(d0, sector, buf), backup, buf));
        Ok(())
    }

    /// Writes the FAT entries of a chain of the `n` clusters from `start`: each points to the
    /// next and the last ends the chain.
    pub fn write_fat_chain<D: BlockDevice>(&self, dev: &mut D, start: u32, n: u32) -> (r: Result<(), &'static str>)
        requires
            self.wf(),
            start as int + n as int <= 0x4000_0000,
        ensures
            keeps_low(disk_of(old(dev)), disk_of(final(dev))),
            r is Ok ==> disk_of(final(dev)) == self.g.chain_put(disk_of(old(dev)), start, n, n as int),
            healthy(old(dev), 512) ==> r is Ok && healthy(final(dev), 512),
    {
        let mut done: u32 = 0;
        while done < n
            invariant
                self.wf(),
                start as int + n as int <= 0x4000_0000,
                done <= n,
                keeps_low(disk_of(old(dev)), disk_of(dev)),
                disk_of(dev) == self.g.chain_put(disk_of(old(dev)), start, n, done as int),
                healthy(old(dev), 512) ==> healthy(dev, 512),
            decreases n - done,
        {
            let c: u32 = start + done;
            let val: u32 = if done == n - 1 { EOC } else { c + 1 };
            self.set_fat(dev, c, val)?;
            done = done + 1;
        }
        Ok(())
    }

    /// Fills cluster `c` with zero bytes.
    pub fn zero_cluster<D: BlockDevice>(&self, dev: &mut D, c: u32) -> (r: Result<(), &'static str>)
        requires
            self.wf(),
            2 <= c,
        ensures
            keeps_low(disk_of(old(dev)), disk_of(final(dev))),
            r is Ok ==> disk_of(final(dev)) == put_blocks(disk_of(old(dev)), self.g.lba_of(c), zero_bytes(512 * self.g.spc as nat), 512, self.g.spc as nat),
            healthy(old(dev), 512) ==> r is Ok && healthy(final(dev), 512),
    {
        let lba = self.cluster_lba(c);
        let zero = zeroes(512);
        let mut s: u32 = 0;
        while s < self.g.spc
            invariant
                self.wf(),
                lba == self.g.lba_of(c),
                lba <= 0x100_0000_0000,
                lba >= RESERVED,
                zero@ == zero_bytes(512),
                s <= self.g.spc,
                keeps_low(disk_of(old(dev)), disk_of(dev)),
                disk_of(dev) == put_blocks(disk_of(old(dev)), lba as int, zero_bytes(512 * self.g.spc as nat), 512, s as nat),
                healthy(old(dev), 512) ==> healthy(dev, 512),
            decreases self.g.spc - s,
        {
            assert(zero_bytes(512 * self.g.spc as nat).subrange(s * 512, (s + 1) * 512) =~= zero_bytes(512));
            write_sector(dev, lba + s as u64, zero.as_slice())?;
            s = s + 1;
        }
        Ok(())
    }

    /// The directory record of an entry named `name` with attributes `attr`, first cluster
    /// `first` and size `size`.
    pub fn make_record(name: &[u8; 11], attr: u8, first: u32, size: u32) -> (r: Vec<u8>)
        ensures
            r@ == dir_record(name@, attr, first, size),
    {
        let mut rec = zeroes(32);
        put_bytes(&mut rec, 0, name.as_slice());
        rec.set(11, attr);
        put_cluster(&mut rec, first, size);
        rec
    }

    /// Adds an entry named `name` to the directory whose first cluster is `dir`: it goes in
    /// the first free or deleted record of the directory's chain, which grows by a fresh
    /// zeroed cluster when it is full. A chain of more than 4096 clusters is refused.
    pub fn add_entry<D: BlockDevice>(&mut self, dev: &mut D, dir: u32, name: &[u8; 11], attr: u8, first: u32, size: u32) -> (r: Result<(), &'static str>)
        requires
            old(self).wf(),
            2 <= dir < 0x0FFF_FFF8,
        ensures
            final(self).wf(),
            final(self).g == old(self).g,
            final(self).max_cluster == old(self).max_cluster,
            final(self).next_free >= old(self).next_free,
            keeps_low(disk_of(old(dev)), disk_of(final(dev))),
            r is Ok ==> has_record(disk_of(final(dev)), dir_record(name@, attr, first, size)),
            healthy(old(dev), 512) ==> healthy(final(dev), 512),
            healthy(old(dev), 512) && old(self).g.free_within(disk_of(old(dev)), dir, 4097) ==> r is Ok,
    {
        let ghost disk = disk_of(dev);
        let ghost fw = healthy(old(dev), 512) && old(self).g.free_within(disk, dir, 4097);
        let rec = Self::make_record(name, attr, first, size);
        let mut c: u32 = dir;
        let mut guard: u32 = 0;
        loop
            invariant
                self.wf(),
                disk == disk_of(old(dev)),
                healthy(old(dev), 512) ==> healthy(dev, 512),
                fw == (healthy(old(dev), 512) && old(self).g.free_within(disk, dir, 4097)),
                fw ==> disk_of(dev) == disk && self.g.free_within(disk, c, (4097 - guard) as nat),
                self.g == old(self).g,
                self.max_cluster == old(self).max_cluster,
                self.next_free >= old(self).next_free,
                2 <= c < 0x0FFF_FFF8,
                guard <= 4096,
                rec@ == dir_record(name@, attr, first, size),
                keeps_low(disk_of(old(dev)), disk_of(dev)),
            decreases 4097 - guard,
        {
            let lba = self.cluster_lba(c);
            let mut s: u32 = 0;
            while s < self.g.spc
                invariant
                    self.wf(),
                    self.g == old(self).g,
                    self.max_cluster == old(self).max_cluster,
                    self.next_free >= old(self).next_free,
                    lba >= RESERVED,
                    lba <= 0x100_0000_0000,
                    s <= self.g.spc,
                    rec@ == dir_record(name@, attr, first, size),
                    rec@.len() == 32,
                    keeps_low(disk_of(old(dev)), disk_of(dev)),
                    disk == disk_of(old(dev)),
                    healthy(old(dev), 512) ==> healthy(dev, 512),
                    fw == (healthy(old(dev), 512) && old(self).g.free_within(disk, dir, 4097)),
                    fw ==> disk_of(dev) == disk && self.g.free_within(disk, c, (4097 - guard) as nat),
                    2 <= c < 0x0FFF_FFF8,
                    lba == self.g.lba_of(c),
                    forall|s2: int, o2: int| 0 <= s2 < s && 0 <= o2 < 512 && o2 % 32 == 0 ==> !#[trigger] self.g.free_at(disk_of(dev), c, s2, o2),
                decreases self.g.spc - s,
            {
                let blk: u64 = lba + s as u64;
                let mut sec = zeroes(512);
                read_sector(dev, blk, &mut sec)?;
                let mut off: usize = 0;
                while off < 512
                    invariant
                        self.wf(),
                        self.g == old(self).g,
                        self.max_cluster == old(self).max_cluster,
                        self.next_free >= old(self).next_free,
                        sec@.len() == 512,
                        off <= 512,
                        off % 32 == 0,
                        blk >= RESERVED,
                        rec@ == dir_record(name@, attr, first, size),
                        rec@.len() == 32,
                        keeps_low(disk_of(old(dev)), disk_of(dev)),
                        disk == disk_of(old(dev)),
                        healthy(old(dev), 512) ==> healthy(dev, 512),
                        fw == (healthy(old(dev), 512) && old(self).g.free_within(disk, dir, 4097)),
                        fw ==> disk_of(dev) == disk && self.g.free_within(disk, c, (4097 - guard) as nat),
                        2 <= c < 0x0FFF_FFF8,
                        lba == self.g.lba_of(c),
                        s < self.g.spc,
                        blk == lba + s,
                        sec@ == disk_of(dev)(blk),
                        forall|s2: int, o2: int| 0 <= s2 < s && 0 <= o2 < 512 && o2 % 32 == 0 ==> !#[trigger] self.g.free_at(disk_of(dev), c, s2, o2),
                        forall|o2: int| 0 <= o2 < off && o2 % 32 == 0 ==> !#[trigger] self.g.free_at(disk_of(dev), c, s as int, o2),
                    decreases 512 - off,
                {
                    let fb = sec[off];
                    if fb == 0x00 || fb == 0xE5 {
                        put_bytes(&mut sec, off, rec.as_slice());
                        write_sector(dev, blk, sec.as_slice())?;
                        proof {
                            assert(disk_of(dev)(blk).subrange(off as int, off + 32) =~= rec@);
                        }
                        return Ok(());
                    }
                    assert(!self.g.free_at(disk_of(dev), c, s as int, off as int));
                    off = off + 32;
                }
                proof {
                    assert forall|s2: int, o2: int| 0 <= s2 < s + 1 && 0 <= o2 < 512 && o2 % 32 == 0
                        implies !#[trigger] self.g.free_at(disk_of(dev), c, s2, o2) by {
                        if s2 == s as int {
                            assert(o2 < off);
                        }
                    }
                }
                s = s + 1;
            }
            proof {
                if fw {
                    assert(!self.g.cluster_has_free(disk, c)) by {
                        assert forall|s2: int, o2: int| 0 <= s2 < self.g.spc && 0 <= o2 < 512 && o2 % 32 == 0
                            implies !#[trigger] self.g.free_at(disk, c, s2, o2) by {
                            assert(!self.g.free_at(disk_of(dev), c, s2, o2));
                        }
                    }
                }
            }
            let n = self.fat_next(dev, c)?;
            if n < 2 || n >= 0x0FFF_FFF8 {
                assert(!fw);
                let nc = self.alloc_run(1)?;
                self.zero_cluster(dev, nc)?;
                self.set_fat(dev, c, nc)?;
                self.set_fat(dev, nc, EOC)?;
                c = nc;
            } else {
                c = n;
            }
            guard = guard + 1;
            assert(fw ==> self.g.free_within(disk, c, (4097 - guard) as nat));
            if guard > 4096 {
                return Err("dizin dongusu");
            }
        }
    }

    /// Makes a directory named `name` in the directory whose first cluster is `parent`: a
    /// fresh zeroed cluster, whose first block holds the `.` and `..` records (`..` naming
    /// cluster 0 when the parent is the root), ending its chain, and an entry for it in the
    /// parent. Gives the new directory's cluster.
    pub fn make_dir<D: BlockDevice>(&mut self, dev: &mut D, parent: u32, name: &[u8; 11]) -> (r: Result<u32, &'static str>)
        requires
            old(self).wf(),
            2 <= parent < 0x0FFF_FFF8,
        ensures
            final(self).wf(),
            final(self).g == old(self).g,
            final(self).max_cluster == old(self).max_cluster,
            final(self).next_free >= old(self).next_free,
            keeps_low(disk_of(old(dev)), disk_of(final(dev))),
            r matches Ok(c) ==> c == old(self).next_free && 3 <= c < 0x0100_0002 && has_record(disk_of(final(dev)), dir_record(name@, 0x10, c, 0)),
            healthy(old(dev), 512) ==> healthy(final(dev), 512),
            healthy(old(dev), 512) && r is Err ==> old(self).next_free + 1 > old(self).max_cluster || !old(self).g.free_within(
                old(self).g.new_dir_disk(disk_of(old(dev)), old(self).next_free, parent),
                parent,
                4097,
            ),
    {
        let c = self.alloc_run(1)?;
        self.zero_cluster(dev, c)?;
        let lba = self.cluster_lba(c);
        let dot: [u8; 11] = [0x2E, 0x20, 0x20, 0x20, 0x20, 0x20, 0x20, 0x20, 0x20, 0x20, 0x20];
        let dotdot: [u8; 11] = [0x2E, 0x2E, 0x20, 0x20, 0x20, 0x20, 0x20, 0x20, 0x20, 0x20, 0x20];
        let d1 = Self::make_record(&dot, 0x10, c, 0);
        let pc: u32 = if parent == self.g.root_cluster { 0 } else { parent };
        let d2 = Self::make_record(&dotdot, 0x10, pc, 0);
        let mut sec = zeroes(512);
        put_bytes(&mut sec, 0, d1.as_slice());
        put_bytes(&mut sec, 32, d2.as_slice());
        proof {
            assert(dot@ =~= dot_name());
            assert(dotdot@ =~= dotdot_name());
            assert(sec@ =~= dot_block(c, pc));
        }
        write_sector(dev, lba, sec.as_slice())?;
        self.set_fat(dev, c, EOC)?;
        assert(disk_of(dev) == self.g.new_dir_disk(disk_of(old(dev)), c, parent));
        self.add_entry(dev, parent, name, 0x10, c, 0)?;
        Ok(c)
    }

    /// Lays the empty file system out: both FATs and the root cluster zeroed, the first three
    /// FAT entries set (media mark, end of chain, root directory), the boot sector in blocks
    /// 0 and 6 and the FSInfo block in blocks 1 and 7. Progress is reported as step 0.
    pub fn format<D: BlockDevice, P: Progress>(&self, dev: &mut D, cb: &mut P) -> (r: Result<(), &'static str>)
        requires
            self.wf(),
        ensures
            final(cb).logs() == old(cb).logs(),
            r is Ok ==> {
                let d = disk_of(final(dev));
                &&& d(0) == boot_image(self.g)
                &&& d(6) == boot_image(self.g)
                &&& d(1) == fsinfo_image()
                &&& d(7) == fsinfo_image()
            },
            healthy(old(dev), 512) ==> r is Ok && healthy(final(dev), 512),
    {
        let fat_total: u32 = self.g.num_fats * self.g.fat_size;
        let zero = zeroes(512);
        let mut i: u32 = 0;
        while i < fat_total
            invariant
                self.wf(),
                fat_total == self.g.num_fats * self.g.fat_size,
                fat_total <= 2 * MAX_FAT,
                i <= fat_total,
                zero@.len() == 512,
                healthy(old(dev), 512) ==> healthy(dev, 512),
                cb.logs() == old(cb).logs(),
            decreases fat_total - i,
        {
            write_sector(dev, self.g.fat_start + i as u64, zero.as_slice())?;
            if i % 64 == 0 {
                let denom: u32 = if fat_total > 1 { fat_total } else { 1 };
                cb.report(0, i * 100 / denom);
            }
            i = i + 1;
        }
        self.zero_cluster(dev, self.g.root_cluster)?;
        self.set_fat(dev, 0, 0x0FFF_FFF8)?;
        self.set_fat(dev, 1, EOC)?;
        self.set_fat(dev, 2, EOC)?;
        let bs = build_boot_sector(&self.g);
        assert(bs@.len() == 512);
        write_sector(dev, 0, bs.as_slice())?;
        write_sector(dev, 6, bs.as_slice())?;
        let fsi = build_fsinfo();
        assert(fsi@.len() == 512);
        write_sector(dev, 1, fsi.as_slice())?;
        write_sector(dev, 7, fsi.as_slice())?;
        cb.report(0, 100);
        Ok(())
    }

    /// Writes `data` as the file `name` of the directory whose first cluster is `dir`: a run
    /// of fresh clusters (one at least) holding the data padded with zeros, chained in the
    /// FAT, and an entry with the run's first cluster and the data's size. Progress is
    /// reported as step `step`.
    pub fn write_data<D: BlockDevice, P: Progress>(
        &mut self,
        dev: &mut D,
        data: &[u8],
        dir: u32,
        name: &[u8; 11],
        step: usize,
        cb: &mut P,
    ) -> (r: Result<(), &'static str>)
        requires
            old(self).wf(),
            2 <= dir < 0x0FFF_FFF8,
            data@.len() <= u32::MAX - 0x1_0000,
        ensures
            final(cb).logs() == old(cb).logs(),
            final(self).wf(),
            final(self).g == old(self).g,
            final(self).max_cluster == old(self).max_cluster,
            final(self).next_free >= old(self).next_free,
            keeps_low(disk_of(old(dev)), disk_of(final(dev))),
            r is Ok ==> has_record(disk_of(final(dev)), dir_record(name@, 0x20, old(self).next_free, data@.len() as u32)),
            healthy(old(dev), 512) ==> healthy(final(dev), 512),
            healthy(old(dev), 512) && r is Err ==> ({
                let tn = run_len(old(self).g.spc, data@.len() as int);
                ||| old(self).next_free + tn > old(self).max_cluster
                ||| !old(self).g.free_within(
                    old(self).g.file_disk(disk_of(old(dev)), old(self).next_free, tn as u32, data@),
                    dir,
                    4097,
                )
            }),
    {
        let size: u32 = data.len() as u32;
        let per: u32 = self.g.spc * 512;
        let tn: u32 = if size == 0 { 1 } else { (size + per - 1) / per };
        assert(tn == run_len(old(self).g.spc, data@.len() as int));
        assert(tn >= 1) by (nonlinear_arith)
            requires
                size == 0 ==> tn == 1,
                size != 0 ==> tn == (size + per - 1) / per as int,
                per >= 512;
        let tstart = self.alloc_run(tn)?;
        let tbase = self.cluster_lba(tstart);
        assert(tn * self.g.spc <= 0x0100_0002 * 128) by (nonlinear_arith)
            requires tn <= 0x0100_0002, self.g.spc <= 128;
        let run_sectors: u32 = tn * self.g.spc;
        let ghost whole = chunk(data@, 0, (run_sectors as nat) * 512);
        let mut i: u32 = 0;
        while i < run_sectors
            invariant
                self.wf(),
                self.g == old(self).g,
                self.max_cluster == old(self).max_cluster,
                self.next_free >= old(self).next_free,
                tbase >= RESERVED,
                tbase <= 0x100_0000_0000,
                i <= run_sectors,
                run_sectors <= 0x0100_0002 * 128,
                cb.logs() == old(cb).logs(),
                keeps_low(disk_of(old(dev)), disk_of(dev)),
                healthy(old(dev), 512) ==> healthy(dev, 512),
                whole == chunk(data@, 0, (run_sectors as nat) * 512),
                disk_of(dev) == put_blocks(disk_of(old(dev)), tbase as int, whole, 512, i as nat),
            decreases run_sectors - i,
        {
            let mut buf = zeroes(512);
            let off64: u64 = i as u64 * 512;
            if off64 < data.len() as u64 {
                let off: usize = off64 as usize;
                let end: usize = if data.len() - off > 512 { off + 512 } else { data.len() };
                let piece = slice_of(data, off, end);
                put_bytes(&mut buf, 0, piece.as_slice());
            }
            assert(buf@ =~= whole.subrange(i * 512, (i + 1) * 512));
            write_sector(dev, tbase + i as u64, buf.as_slice())?;
            i = i + 1;
            if i % 64 == 0 {
                let denom: u32 = if run_sectors > 1 { run_sectors } else { 1 };
                let pct: u64 = i as u64 * 100 / denom as u64;
                cb.report(step, pct as u32);
            }
        }
        self.write_fat_chain(dev, tstart, tn)?;
        assert(disk_of(dev) == old(self).g.file_disk(disk_of(old(dev)), old(self).next_free, tn, data@));
        self.add_entry(dev, dir, name, 0x20, tstart, size)?;
        cb.report(step, 100);
        Ok(())
    }
}

} // verus!

verus! {

/// Installs the system on the partition behind `dev` of `disk_sectors` blocks: formats it
/// (see `plan` and `Fmt::format`), makes `EFI`, `EFI\BOOT`, `RSYS` and `APPS`, writes the
/// boot loader `boot` as `EFI\BOOT\BOOTX64.EFI`, the kernel `kernel` as `KERNEL.ELF` in the
/// root and in `RSYS`, the core image `core` as `RSYS\CORE.BIN` and the default registry as
/// `RSYS\REGISTRY.DAT`, and, when there is an EFI system partition (`esp`), installs the
/// boot loader there too. Progress goes to `cb` by step (0 formatting, 1 boot loader, 2
/// kernel, 3 system files, 4 done). A device whose blocks are not 512 bytes, or payloads too
/// small to be real (a kernel under 4096 bytes, a boot loader or core under 1024), are
/// refused.
#[verifier::spinoff_prover]
#[verifier::rlimit(60)]
pub fn install<D: BlockDevice, E: BlockDevice, P: Progress>(
    dev: &mut D,
    disk_sectors: u32,
    esp: Option<&mut E>,
    boot: &[u8],
    kernel: &[u8],
    core: &[u8],
    cb: &mut P,
) -> (r: Result<(), &'static str>)
    requires
        disk_sectors <= u32::MAX - 16384,
        boot@.len() <= u32::MAX - 0x1_0000,
        kernel@.len() <= u32::MAX - 0x1_0000,
        core@.len() <= u32::MAX - 0x1_0000,
    ensures
        kernel@.len() < 4096 || boot@.len() < 1024 || core@.len() < 1024 ==> r is Err && disk_of(final(dev)) == disk_of(old(dev)),
        old(dev).reported_size() matches Some(n) && n != 512 ==> r == Err::<(), &'static str>("hedef bolum 512B sektor degil")
            && disk_of(final(dev)) == disk_of(old(dev)) && *final(cb) == *old(cb),
        kernel@.len() < 4096 || boot@.len() < 1024 || core@.len() < 1024 ==> *final(cb) == *old(cb),
        final(cb).logs() == old(cb).logs(),
        r is Ok && old(cb).logs() ==> final(cb).reports().len() > 0 && final(cb).reports().last() == (4usize, 100u32),
        old(dev).reported_size() == Some(512u32) && kernel@.len() < 4096 ==> r == Err::<(), &'static str>(
            "payload gomulmemis (make rpe-usb kullan)",
        ),
        old(dev).reported_size() == Some(512u32) && kernel@.len() >= 4096 && boot@.len() < 1024 ==> r == Err::<(), &'static str>(
            "payload bootloader gomulmemis",
        ),
        old(dev).reported_size() == Some(512u32) && kernel@.len() >= 4096 && boot@.len() >= 1024 && core@.len() < 1024
            ==> r == Err::<(), &'static str>("payload core.bin gomulmemis"),
        r is Ok ==> {
            let d = disk_of(final(dev));
            let g = plan_spec(disk_sectors);
            &&& d(0) == boot_image(g)
            &&& d(6) == boot_image(g)
            &&& d(1) == fsinfo_image()
            &&& d(7) == fsinfo_image()
        },
{
    if dev.block_size() != 512 {
        return Err("hedef bolum 512B sektor degil");
    }
    if kernel.len() < 4096 {
        return Err("payload gomulmemis (make rpe-usb kullan)");
    }
    if boot.len() < 1024 {
        return Err("payload bootloader gomulmemis");
    }
    if core.len() < 1024 {
        return Err("payload core.bin gomulmemis");
    }
    let g = plan(disk_sectors);
    let mut f = Fmt::new(g);
    cb.report(0, 0);
    f.format(dev, cb)?;
    let ghost formatted = disk_of(dev);
    let efi = f.make_dir(dev, g.root_cluster, &sn("EFI".as_bytes()))?;
    let boot_dir = f.make_dir(dev, efi, &sn("BOOT".as_bytes()))?;
    let rsys = f.make_dir(dev, g.root_cluster, &sn("RSYS".as_bytes()))?;
    let _apps = f.make_dir(dev, g.root_cluster, &sn("APPS".as_bytes()))?;
    cb.report(1, 0);
    f.write_data(dev, boot, boot_dir, &sn3("BOOTX64".as_bytes(), "EFI".as_bytes()), 1, cb)?;
    cb.report(2, 0);
    f.write_data(dev, kernel, g.root_cluster, &sn3("KERNEL".as_bytes(), "ELF".as_bytes()), 2, cb)?;
    f.write_data(dev, kernel, rsys, &sn3("KERNEL".as_bytes(), "ELF".as_bytes()), 2, cb)?;
    cb.report(3, 0);
    f.write_data(dev, core, rsys, &sn3("CORE".as_bytes(), "BIN".as_bytes()), 3, cb)?;
    let reg = build_registry();
    f.write_data(dev, reg.as_slice(), rsys, &sn3("REGISTRY".as_bytes(), "DAT".as_bytes()), 3, cb)?;
    assert(keeps_low(formatted, disk_of(dev)));
    match esp {
        Some(edev) => {
            cb.report(3, 60);
            crate::esp::install_bootloader(edev, boot)?;
            cb.report(3, 100);
        },
        None => {},
    }
    cb.report(4, 100);
    Ok(())
}

} // verus!

verus! {

/// A spliced sequence holds the spliced bytes in their place and the old ones elsewhere.
proof fn lemma_splice_at(s: Seq<u8>, off: int, t: Seq<u8>, k: int)
    requires
        0 <= off,
        off + t.len() <= s.len(),
        0 <= k < s.len(),
    ensures
        splice(s, off, t).len() == s.len(),
        splice(s, off, t)[k] == (if off <= k < off + t.len() { t[k - off] } else { s[k] }),
{
}

/// The last part of a boot sector leaves its first 64 bytes alone and ends in the boot
/// signature.
proof fn lemma_tail_keeps(m: Seq<u8>)
    requires
        m.len() == 512,
    ensures
        boot_tail(m).len() == 512,
        forall|k: int| 0 <= k < 64 ==> #[trigger] boot_tail(m)[k] == m[k],
        boot_tail(m)[510] == 0x55,
        boot_tail(m)[511] == 0xAA,
{
    let b1 = m.update(64, 0x80u8);
    let b2 = b1.update(66, 0x29u8);
    let b3 = splice(b2, 67, le32_bytes(0x5255_5354));
    let b4 = splice(b3, 71, volume_label());
    let b5 = splice(b4, 82, fs_type());
    let b6 = b5.update(510, 0x55u8);
    let b7 = b6.update(511, 0xAAu8);
    assert(boot_tail(m) == b7);
    assert forall|k: int| 0 <= k < 64 implies #[trigger] b7[k] == m[k] by {
        lemma_splice_at(b2, 67, le32_bytes(0x5255_5354), k);
        lemma_splice_at(b3, 71, volume_label(), k);
        lemma_splice_at(b4, 82, fs_type(), k);
    }
}

/// The middle part of a boot sector leaves its first 24 bytes alone and holds the FAT size
/// and root cluster.
proof fn lemma_geom_keeps(h: Seq<u8>, g: Geom)
    requires
        h.len() == 512,
    ensures
        boot_geom(h, g).len() == 512,
        forall|k: int| 0 <= k < 24 ==> #[trigger] boot_geom(h, g)[k] == h[k],
        boot_geom(h, g).subrange(36, 40) == le32_bytes(g.fat_size),
        boot_geom(h, g).subrange(44, 48) == le32_bytes(g.root_cluster),
{
    let b1 = splice(h, 24, le16_bytes(63));
    let b2 = splice(b1, 26, le16_bytes(255));
    let b3 = splice(b2, 32, le32_bytes(g.total_sectors));
    let b4 = splice(b3, 36, le32_bytes(g.fat_size));
    let b5 = splice(b4, 44, le32_bytes(g.root_cluster));
    let b6 = splice(b5, 48, le16_bytes(1));
    let b7 = splice(b6, 50, le16_bytes(6));
    assert(boot_geom(h, g) == b7);
    assert forall|k: int| 0 <= k < 24 implies #[trigger] b7[k] == h[k] by {
        lemma_splice_at(h, 24, le16_bytes(63), k);
        lemma_splice_at(b1, 26, le16_bytes(255), k);
        lemma_splice_at(b2, 32, le32_bytes(g.total_sectors), k);
        lemma_splice_at(b3, 36, le32_bytes(g.fat_size), k);
        lemma_splice_at(b4, 44, le32_bytes(g.root_cluster), k);
        lemma_splice_at(b5, 48, le16_bytes(1), k);
        lemma_splice_at(b6, 50, le16_bytes(6), k);
    }
    assert forall|k: int| 36 <= k < 40 implies #[trigger] b7[k] == le32_bytes(g.fat_size)[k - 36] by {
        lemma_splice_at(b3, 36, le32_bytes(g.fat_size), k);
        lemma_splice_at(b4, 44, le32_bytes(g.root_cluster), k);
        lemma_splice_at(b5, 48, le16_bytes(1), k);
        lemma_splice_at(b6, 50, le16_bytes(6), k);
    }
    assert forall|k: int| 44 <= k < 48 implies #[trigger] b7[k] == le32_bytes(g.root_cluster)[k - 44] by {
        lemma_splice_at(b4, 44, le32_bytes(g.root_cluster), k);
        lemma_splice_at(b5, 48, le16_bytes(1), k);
        lemma_splice_at(b6, 50, le16_bytes(6), k);
    }
    assert(b7.subrange(36, 40) =~= le32_bytes(g.fat_size));
    assert(b7.subrange(44, 48) =~= le32_bytes(g.root_cluster));
}

/// The first part of a boot sector holds the block size, cluster size, reserved blocks and
/// FAT count.
proof fn lemma_head_fields(z: Seq<u8>, g: Geom)
    requires
        z.len() == 512,
    ensures
        boot_head(z, g).len() == 512,
        boot_head(z, g).subrange(11, 13) == le16_bytes(g.bps as u16),
        boot_head(z, g)[13] == g.spc as u8,
        boot_head(z, g).subrange(14, 16) == le16_bytes(g.reserved as u16),
        boot_head(z, g)[16] == g.num_fats as u8,
{
    let b1 = splice(z, 0, seq![0xEBu8, 0x58, 0x90]);
    let b2 = splice(b1, 3, oem_name());
    let b3 = splice(b2, 11, le16_bytes(g.bps as u16));
    let b4 = b3.update(13, g.spc as u8);
    let b5 = splice(b4, 14, le16_bytes(g.reserved as u16));
    let b6 = b5.update(16, g.num_fats as u8);
    let b7 = b6.update(21, 0xF8u8);
    assert(boot_head(z, g) == b7);
    assert forall|k: int| 11 <= k < 13 implies #[trigger] b7[k] == le16_bytes(g.bps as u16)[k - 11] by {
        lemma_splice_at(b2, 11, le16_bytes(g.bps as u16), k);
        lemma_splice_at(b4, 14, le16_bytes(g.reserved as u16), k);
    }
    assert forall|k: int| 14 <= k < 16 implies #[trigger] b7[k] == le16_bytes(g.reserved as u16)[k - 14] by {
        lemma_splice_at(b4, 14, le16_bytes(g.reserved as u16), k);
    }
    lemma_splice_at(b4, 14, le16_bytes(g.reserved as u16), 13);
    assert(b7.subrange(11, 13) =~= le16_bytes(g.bps as u16));
    assert(b7.subrange(14, 16) =~= le16_bytes(g.reserved as u16));
}

/// The bytes of a boot sector that the FAT32 driver reads.
proof fn lemma_boot_bytes(g: Geom)
    ensures
        boot_image(g).len() == 512,
        boot_image(g)[510] == 0x55,
        boot_image(g)[511] == 0xAA,
        boot_image(g).subrange(11, 13) == le16_bytes(g.bps as u16),
        boot_image(g)[13] == g.spc as u8,
        boot_image(g).subrange(14, 16) == le16_bytes(g.reserved as u16),
        boot_image(g)[16] == g.num_fats as u8,
        boot_image(g).subrange(36, 40) == le32_bytes(g.fat_size),
        boot_image(g).subrange(44, 48) == le32_bytes(g.root_cluster),
{
    reveal(boot_image);
    let z = zero_bytes(512);
    let h = boot_head(z, g);
    let m = boot_geom(h, g);
    lemma_head_fields(z, g);
    lemma_geom_keeps(h, g);
    lemma_tail_keeps(m);
    let b = boot_tail(m);
    assert(b.subrange(11, 13) =~= h.subrange(11, 13));
    assert(b.subrange(14, 16) =~= h.subrange(14, 16));
    assert(b[13] == h[13]);
    assert(b[16] == h[16]);
    assert(b.subrange(36, 40) =~= m.subrange(36, 40));
    assert(b.subrange(44, 48) =~= m.subrange(44, 48));
}

/// The sizes `plan_from` gives stay in range.
proof fn lemma_plan_from_bounds(total: int, spc: int)
    requires
        8192 <= total <= u32::MAX,
        spc == 8 || spc == 16 || spc == 32 || spc == 64 || spc == 128,
    ensures
        ({
            let p = plan_from(total, spc);
            &&& 8 <= p.0 <= 128
            &&& 8192 <= p.1 <= u32::MAX
            &&& 0 <= p.2 <= MAX_FAT
        }),
    decreases 256 - spc,
{
    lemma_fat_fits(total, spc);
    if fat_blocks(total, spc) <= MAX_FAT {
    } else if spc < 128 {
        lemma_plan_from_bounds(total, spc * 2);
    } else {
        lemma_fat_fits(max_total(), 128);
        assert(max_total() == 134225952);
        assert((256 * 128 + NUM_FATS) / 2 == 16385);
        vstd::arithmetic::div_mod::lemma_fundamental_div_mod_converse(134225952 - 32 + 16385 - 1, 16385, 8192, 16384);
        assert(fat_blocks(max_total(), 128) == MAX_FAT);
    }
}

/// What the installer formats, the FAT32 driver mounts with the same geometry: for every
/// partition size the installer accepts, the boot sector it writes is one the driver takes,
/// and the driver reads from it 512-byte blocks, the planned cluster size, FAT count, FAT
/// size and root cluster, and the planned starts of the FATs and of the data area.
pub proof fn lemma_installed_volume_mounts(disk_sectors: u32)
    requires
        disk_sectors <= u32::MAX - 16384,
    ensures
        ({
            let g = plan_spec(disk_sectors);
            let b = boot_image(g);
            &&& boot_ok(b)
            &&& boot_params(b).bytes_per_sector == g.bps
            &&& boot_params(b).sectors_per_cluster == g.spc
            &&& boot_params(b).reserved_sectors == g.reserved
            &&& boot_params(b).num_fats == g.num_fats
            &&& boot_params(b).fat_size_sectors == g.fat_size
            &&& boot_params(b).root_cluster == g.root_cluster
            &&& boot_params(b).fat_start_lba == g.fat_start
            &&& boot_params(b).data_start_lba == g.data_start
        }),
{
    let g = plan_spec(disk_sectors);
    let b = boot_image(g);
    lemma_boot_bytes(g);
    lemma_le32_of_bytes(g.fat_size);
    lemma_le32_of_bytes(g.root_cluster);
    assert(le32(b, 36) == le32(b.subrange(36, 40), 0));
    assert(le32(b, 44) == le32(b.subrange(44, 48), 0));
    assert(le16(b, 11) == le16(b.subrange(11, 13), 0));
    assert(le16(b, 14) == le16(b.subrange(14, 16), 0));
    assert(g.num_fats == 2 && g.reserved == 32 && g.bps == 512);
    assert(le16(b, 11) == 512);
    assert(le16(b, 14) == 32);
    assert(b[16] == 2);
    let total = if disk_sectors < 8192 { 8192int } else { disk_sectors as int };
    lemma_plan_from_bounds(total, spc_for(disk_sectors) as int);
    assert(g.data_start == 32 + 2 * g.fat_size);
}

} // verus!
