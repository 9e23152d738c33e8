use vstd::prelude::*;
use crate::block::{BlockDevice, Disk, disk_of, disk_put, healthy, read_sector, write_sector};
use crate::bytes::{le16, le32, get_le16, get_le32, put_le32, put_bytes, slice_of, splice, le32_bytes, bytes_eq, zeroes};
use crate::fat32::put_blocks;
use crate::esp_frame::{esp_linked, lemma_chain_grow, lemma_data_block, lemma_piece_block, lemma_stores_kept, lemma_hop_in_chain, lemma_in_chain_kept, lemma_in_chain_geom, esp_piece, esp_stores, lemma_block_put_same_but, lemma_geom_ops, esp_ready, esp_free, kept_chain, busy_chain, in_chain, fat_covers_all, lemma_kept_refl, lemma_esp_free, lemma_esp_alloc, lemma_esp_link, lemma_esp_block, lemma_fw_kept};
use crate::install::{EOC, dir_record, has_record, zero_bytes, Fmt, sn, sn3, name3_spec, dot_block, dot_name, dotdot_name};

verus! {

/// An EFI system partition opened for writing: the geometry its boot sector gives, the last
/// cluster of its data area, and where the next search for a free cluster starts.
pub struct Esp {
    pub bps: u32,
    pub spc: u32,
    pub num_fats: u32,
    pub fat_size: u32,
    pub fsinfo_sec: u64,
    pub root_cluster: u32,
    pub fat_start: u64,
    pub data_start: u64,
    pub max_cluster: u32,
    pub hint: u32,
}

/// Whether `spc` is a power of two no larger than 128.
pub open spec fn spc_ok(spc: u32) -> bool {
    spc != 0 && (spc & (spc - 1) as u32) == 0 && spc <= 128
}

/// What opening a partition whose first block is `b` gives: the refusal for the first check
/// it fails (boot signature, 512-byte blocks, cluster size a power of two up to 128, some
/// reserved blocks, one or two FATs, no 16-bit FAT size, a FAT size, a root cluster from 2
/// on, a data area, at least 65525 clusters), or its geometry, with the search for free
/// clusters starting at 2.
pub open spec fn esp_of_boot(b: Seq<u8>) -> Result<Esp, &'static str> {
    let bps = le16(b, 11);
    let spc = b[13] as u32;
    let reserved = le16(b, 14);
    let num_fats = b[16] as int;
    let fat_size = le32(b, 36);
    let root = le32(b, 44);
    let t16 = le16(b, 19);
    let total = if t16 != 0 { t16 } else { le32(b, 32) };
    let data_start = reserved + num_fats * fat_size;
    if b[510] != 0x55 || b[511] != 0xAA {
        Err("ESP: invalid boot sector")
    } else if bps != 512 {
        Err("ESP: 512B sector isn't supporting")
    } else if !spc_ok(spc) {
        Err("ESP: cluster size is invalid")
    } else if reserved == 0 {
        Err("ESP: reserved is invalid")
    } else if num_fats == 0 || num_fats > 2 {
        Err("ESP: FAT number is invalid")
    } else if le16(b, 22) != 0 {
        Err("ESP: isnt FAT32 (FAT16?)")
    } else if fat_size == 0 {
        Err("ESP: FAT32 invalid")
    } else if root < 2 {
        Err("ESP: root cluster is invalid")
    } else if total <= data_start {
        Err("ESP: geometry is invalid")
    } else if (total - data_start) / (spc as int) < 65525 {
        Err("ESP: FAT32 is invalid (low cluster number)")
    } else {
        Ok(Esp {
            bps: 512,
            spc,
            num_fats: num_fats as u32,
            fat_size: fat_size as u32,
            fsinfo_sec: le16(b, 48) as u64,
            root_cluster: root as u32,
            fat_start: reserved as u64,
            data_start: data_start as u64,
            max_cluster: ((total - data_start) / (spc as int) + 1) as u32,
            hint: 2,
        })
    }
}

/// The first cluster a 32-byte directory record gives.
pub open spec fn rec_cluster(rec: Seq<u8>) -> int {
    le16(rec, 20) * 0x1_0000 + le16(rec, 26)
}

/// Whether a directory record names a directory.
pub open spec fn rec_is_dir(rec: Seq<u8>) -> bool {
    rec[11] & 0x10 != 0
}

/// Whether some block of `disk` holds, at a record boundary, a record named `name` with
/// first cluster `c`, size `sz` and directory flag `d`.
pub open spec fn named_entry(disk: Disk, name: Seq<u8>, c: int, sz: int, d: bool) -> bool {
    exists|lba: u64, off: int|
        0 <= off && off + 32 <= 512 && off % 32 == 0 && {
            let rec = #[trigger] disk(lba).subrange(off, off + 32);
            &&& rec.subrange(0, 11) == name
            &&& rec_cluster(rec) == c
            &&& le32(rec, 28) == sz
            &&& rec_is_dir(rec) == d
        }
}

/// The low 28 bits of a FAT entry are its value modulo 2^28.
pub proof fn lemma_low28(v: u32)
    ensures
        v & 0x0FFF_FFFF == v % 0x1000_0000,
{
    assert(v & 0x0FFF_FFFF == v % 0x1000_0000) by (bit_vector);
}

impl Esp {
    /// The geometry is one `open` accepts, and the search hint is a cluster number.
    pub open spec fn wf(&self) -> bool {
        &&& self.bps == 512
        &&& 1 <= self.spc <= 128
        &&& 1 <= self.num_fats <= 2
        &&& 1 <= self.fat_start <= 0xFFFF
        &&& self.fat_size >= 1
        &&& self.data_start == self.fat_start + self.num_fats * self.fat_size
        &&& 2 <= self.root_cluster
        &&& 65525 <= self.max_cluster < 0xFFFF_FFFF
        &&& self.hint <= self.max_cluster + 1
    }

    /// Whether `other` has the same geometry as `self` (the search hint aside).
    pub open spec fn same_geom(&self, other: &Esp) -> bool {
        &&& other.bps == self.bps
        &&& other.max_cluster == self.max_cluster
        &&& other.root_cluster == self.root_cluster
        &&& other.spc == self.spc
        &&& other.data_start == self.data_start
        &&& other.fat_start == self.fat_start
        &&& other.fat_size == self.fat_size
        &&& other.num_fats == self.num_fats
        &&& other.fsinfo_sec == self.fsinfo_sec
    }

    /// The first block of cluster `c`.
    pub open spec fn lba_of(&self, c: u32) -> int {
        self.data_start + (c - 2) * self.spc
    }

    /// The block of the first FAT holding the entry of cluster `c`.
    pub open spec fn fat_block(&self, c: u32) -> int {
        self.fat_start + (c as int * 4) / 512
    }

    /// Where in its block the FAT entry of cluster `c` starts.
    pub open spec fn fat_pos(&self, c: u32) -> int {
        (c as int * 4) % 512
    }

    /// The value of the FAT entry of cluster `c` on `disk` (its low 28 bits).
    pub open spec fn entry(&self, disk: Disk, c: u32) -> int {
        le32(disk(self.fat_block(c) as u64), self.fat_pos(c)) % 0x1000_0000
    }

    /// `disk` with the low 28 bits of the entry of cluster `c` set to those of `val`, in the
    /// first FAT and, when there are two, in the second.
    pub open spec fn entry_put(&self, disk: Disk, c: u32, val: u32) -> Disk {
        let put = |d: Disk, s: int| {
            let blk = d(s as u64);
            let old = le32(blk, self.fat_pos(c));
            let nv = (old / 0x1000_0000) * 0x1000_0000 + val % 0x1000_0000;
            disk_put(d, s as u64, splice(blk, self.fat_pos(c), le32_bytes(nv as u32)))
        };
        let d1 = put(disk, self.fat_block(c));
        if self.num_fats > 1 {
            put(d1, self.fat_block(c) + self.fat_size)
        } else {
            d1
        }
    }

    /// Opens the FAT32 partition on `dev`: see `esp_of_boot`, refused as well when its first
    /// block cannot be read.
    pub fn open<D: BlockDevice>(dev: &mut D) -> (r: Result<Esp, &'static str>)
        ensures
            disk_of(final(dev)) == disk_of(old(dev)),
            r is Ok ==> r == esp_of_boot(disk_of(old(dev))(0)),
            r is Ok ==> r->Ok_0.wf(),
            esp_of_boot(disk_of(old(dev))(0)) is Err ==> r is Err,
            forall|n: int| healthy(old(dev), n) ==> #[trigger] healthy(final(dev), n),
            old(dev).serves(0) && disk_of(old(dev))(0).len() == 512 && esp_of_boot(disk_of(old(dev))(0)) is Ok ==> r is Ok,
    {
        let mut b = zeroes(512);
        read_sector(dev, 0, &mut b)?;
        let bs = b.as_slice();
        if bs[510] != 0x55 || bs[511] != 0xAA {
            return Err("ESP: invalid boot sector");
        }
        let bps = get_le16(bs, 11) as u32;
        if bps != 512 {
            return Err("ESP: 512B sector isn't supporting");
        }
        let spc = bs[13] as u32;
        if spc == 0 || (spc & (spc - 1)) != 0 || spc > 128 {
            return Err("ESP: cluster size is invalid");
        }
        let reserved = get_le16(bs, 14) as u32;
        if reserved == 0 {
            return Err("ESP: reserved is invalid");
        }
        let num_fats = bs[16] as u32;
        if num_fats == 0 || num_fats > 2 {
            return Err("ESP: FAT number is invalid");
        }
        if get_le16(bs, 22) != 0 {
            return Err("ESP: isnt FAT32 (FAT16?)");
        }
        let fat_size = get_le32(bs, 36);
        if fat_size == 0 {
            return Err("ESP: FAT32 invalid");
        }
        let root_cluster = get_le32(bs, 44);
        if root_cluster < 2 {
            return Err("ESP: root cluster is invalid");
        }
        let fsinfo_sec = get_le16(bs, 48) as u64;
        let t16 = get_le16(bs, 19) as u32;
        let total: u32 = if t16 != 0 { t16 } else { get_le32(bs, 32) };
        let fat_start = reserved as u64;
        let nf: u64 = num_fats as u64;
        let fs: u64 = fat_size as u64;
        assert(nf * fs <= 2 * 0xFFFF_FFFF) by (nonlinear_arith)
            requires nf <= 2, fs <= 0xFFFF_FFFF;
        let data_start: u64 = reserved as u64 + nf * fs;
        if (total as u64) <= data_start {
            return Err("ESP: geometry is invalid");
        }
        let clusters: u64 = (total as u64 - data_start) / spc as u64;
        if clusters < 65525 {
            return Err("ESP: FAT32 is invalid (low cluster number)");
        }
        let span: u64 = total as u64 - data_start;
        assert(clusters <= span) by (nonlinear_arith)
            requires clusters == span / (spc as u64), spc >= 1;
        assert(data_start >= 2) by (nonlinear_arith)
            requires data_start == reserved as u64 + nf * fs, reserved >= 1, nf >= 1, fs >= 1;
        assert(clusters < 0xFFFF_FFFE);
        Ok(Esp {
            bps,
            spc,
            num_fats,
            fat_size,
            fsinfo_sec,
            root_cluster,
            fat_start,
            data_start,
            max_cluster: (clusters + 1) as u32,
            hint: 2,
        })
    }

    /// The first block of cluster `c`.
    pub fn cluster_lba(&self, c: u32) -> (r: u64)
        requires
            self.wf(),
            2 <= c,
        ensures
            r == self.lba_of(c),
            r <= 0x100_0000_0000,
    {
        let k: u64 = c as u64 - 2;
        let spc: u64 = self.spc as u64;
        assert(k * spc <= 0xFFFF_FFFF * 128) by (nonlinear_arith)
            requires k <= 0xFFFF_FFFF, spc <= 128;
        assert(self.data_start <= 0xFFFF + 2 * 0xFFFF_FFFF) by (nonlinear_arith)
            requires self.data_start == self.fat_start + self.num_fats * self.fat_size,
                self.fat_start <= 0xFFFF, self.num_fats <= 2, self.fat_size <= 0xFFFF_FFFF;
        self.data_start + k * spc
    }

    /// The value of the FAT entry of cluster `c`; refused for a cluster outside 2 to the last.
    pub fn fat_get<D: BlockDevice>(&self, dev: &mut D, c: u32) -> (r: Result<u32, &'static str>)
        requires
            self.wf(),
        ensures
            disk_of(final(dev)) == disk_of(old(dev)),
            c < 2 || c > self.max_cluster ==> r is Err,
            r matches Ok(v) ==> v == self.entry(disk_of(old(dev)), c),
            healthy(old(dev), 512) ==> healthy(final(dev), 512),
            healthy(old(dev), 512) && 2 <= c <= self.max_cluster ==> r is Ok,
    {
        if c < 2 || c > self.max_cluster {
            return Err("ESP: cluster araligi disi");
        }
        let off: u64 = c as u64 * 4;
        let sec: u64 = self.fat_start + off / 512;
        let o: usize = (off % 512) as usize;
        let mut b = zeroes(512);
        read_sector(dev, sec, &mut b)?;
        let v = get_le32(b.as_slice(), o);
        proof {
            lemma_low28(v);
        }
        Ok(v & 0x0FFF_FFFF)
    }

    /// Sets the low 28 bits of the FAT entry of cluster `c` to those of `val`, keeping its top
    /// four bits, in each FAT; refused for a cluster outside 2 to the last.
    #[verifier::spinoff_prover]
    #[verifier::rlimit(40)]
    pub fn fat_set<D: BlockDevice>(&self, dev: &mut D, c: u32, val: u32) -> (r: Result<(), &'static str>)
        requires
            self.wf(),
        ensures
            c < 2 || c > self.max_cluster ==> r is Err && disk_of(final(dev)) == disk_of(old(dev)),
            r is Ok ==> disk_of(final(dev)) == self.entry_put(disk_of(old(dev)), c, val),
            healthy(old(dev), 512) ==> healthy(final(dev), 512),
            healthy(old(dev), 512) && 2 <= c <= self.max_cluster ==> r is Ok,
    {
        if c < 2 || c > self.max_cluster {
            return Err("ESP: cluster araligi disi");
        }
        let off: u64 = c as u64 * 4;
        let o: usize = (off % 512) as usize;
        let ghost d0 = disk_of(dev);
        let mut i: u32 = 0;
        while i < self.num_fats
            invariant
                self.wf(),
                2 <= c <= self.max_cluster,
                off == c as u64 * 4,
                o == self.fat_pos(c),
                i <= self.num_fats,
                i == 0 ==> disk_of(dev) == d0,
                i == 1 ==> disk_of(dev) == {
                    let blk = d0(self.fat_block(c) as u64);
                    let old = le32(blk, self.fat_pos(c));
                    let nv = (old / 0x1000_0000) * 0x1000_0000 + val % 0x1000_0000;
                    disk_put(d0, self.fat_block(c) as u64, splice(blk, self.fat_pos(c), le32_bytes(nv as u32)))
                },
                i == 2 ==> disk_of(dev) == self.entry_put(d0, c, val),
                healthy(old(dev), 512) ==> healthy(dev, 512),
            decreases self.num_fats - i,
        {
            let ii: u64 = i as u64;
            let fs: u64 = self.fat_size as u64;
            assert(ii * fs <= 0xFFFF_FFFF && (ii == 0 ==> ii * fs == 0) && (ii == 1 ==> ii * fs == fs)) by (nonlinear_arith)
                requires ii <= 1, fs <= 0xFFFF_FFFF;
            let sec: u64 = self.fat_start + ii * fs + off / 512;
            assert(ii == 0 ==> sec == self.fat_block(c));
            assert(ii == 1 ==> sec == self.fat_block(c) + self.fat_size);
            let mut b = zeroes(512);
            read_sector(dev, sec, &mut b)?;
            let old = get_le32(b.as_slice(), o);
            let nv: u32 = (old & 0xF000_0000) | (val & 0x0FFF_FFFF);
            assert(nv == (old / 0x1000_0000) * 0x1000_0000 + val % 0x1000_0000) by (bit_vector)
                requires nv == (old & 0xF000_0000) | (val & 0x0FFF_FFFF);
            put_le32(&mut b, o, nv);
            write_sector(dev, sec, b.as_slice())?;
            i = i + 1;
        }
        Ok(())
    }

    /// `disk` with every block of cluster `c` zeroed.
    pub open spec fn zeroed(&self, disk: Disk, c: u32) -> Disk {
        put_blocks(disk, self.lba_of(c), zero_bytes(512 * self.spc as nat), 512, self.spc as nat)
    }

    /// Fills cluster `c` with zero bytes.
    pub fn zero_cluster<D: BlockDevice>(&self, dev: &mut D, c: u32) -> (r: Result<(), &'static str>)
        requires
            self.wf(),
            2 <= c,
        ensures
            r is Ok ==> disk_of(final(dev)) == self.zeroed(disk_of(old(dev)), c),
            healthy(old(dev), 512) ==> r is Ok && healthy(final(dev), 512),
    {
        let lba = self.cluster_lba(c);
        let zero = zeroes(512);
        let mut s: u32 = 0;
        while s < self.spc
            invariant
                self.wf(),
                lba == self.lba_of(c),
                lba <= 0x100_0000_0000,
                zero@ == zero_bytes(512),
                s <= self.spc,
                disk_of(dev) == put_blocks(disk_of(old(dev)), lba as int, zero_bytes(512 * self.spc as nat), 512, s as nat),
                healthy(old(dev), 512) ==> healthy(dev, 512),
            decreases self.spc - s,
        {
            assert(zero_bytes(512 * self.spc as nat).subrange(s * 512, (s + 1) * 512) =~= zero_bytes(512));
            write_sector(dev, lba + s as u64, zero.as_slice())?;
            s = s + 1;
        }
        Ok(())
    }

    /// Whether the FAT entry of cluster `x` lies in block `sidx` of the FAT, whose bytes are
    /// `b`, and is not zero there.
    pub open spec fn busy_in(&self, b: Seq<u8>, x: u32, sidx: int) -> bool {
        (x as int * 4) / 512 == sidx && le32(b, self.fat_pos(x)) % 0x1000_0000 != 0
    }

    /// Looks through the FAT entries held by block `sidx` of the FAT (`b`) from cluster `c` on
    /// for a free one: gives it and `true`, or the first cluster past the block (or past the
    /// last cluster) and `false`.
    fn scan_block(&self, b: &Vec<u8>, c: u32, sidx: u64) -> (r: (u32, bool))
        requires
            self.wf(),
            b@.len() == 512,
            2 <= c <= self.max_cluster,
            (c as int * 4) / 512 == sidx,
        ensures
            c <= r.0 <= self.max_cluster + 1,
            r.1 ==> r.0 <= self.max_cluster && (r.0 as int * 4) / 512 == sidx
                && le32(b@, self.fat_pos(r.0)) % 0x1000_0000 == 0,
            !r.1 ==> r.0 > c,
            !r.1 ==> forall|x: u32| c <= x < r.0 ==> #[trigger] self.busy_in(b@, x, sidx as int),
    {
        let mut e: u32 = c;
        while e <= self.max_cluster
            invariant
                self.wf(),
                b@.len() == 512,
                2 <= c <= e <= self.max_cluster + 1,
                c <= self.max_cluster,
                forall|x: u32| c <= x < e ==> #[trigger] self.busy_in(b@, x, sidx as int),
            ensures
                c <= e <= self.max_cluster + 1,
                e > c || (e <= self.max_cluster && (e as int * 4) / 512 != sidx),
            decreases self.max_cluster + 1 - e,
        {
            if (e as u64 * 4) / 512 != sidx {
                break;
            }
            let o: usize = ((e as u64 * 4) % 512) as usize;
            let raw = get_le32(b.as_slice(), o);
            proof {
                lemma_low28(raw);
            }
            if raw & 0x0FFF_FFFF == 0 {
                return (e, true);
            }
            assert(o == self.fat_pos(e));
            assert(le32(b@, self.fat_pos(e)) % 0x1000_0000 != 0);
            assert((e as int * 4) / 512 == sidx);
            assert(self.busy_in(b@, e, sidx as int));
            if e == self.max_cluster {
                return (e + 1, false);
            }
            e = e + 1;
        }
        (e, false)
    }

    /// Takes a free cluster: the first whose FAT entry is zero from the hint to the last
    /// cluster, then from 2 up to the hint. The cluster is marked as the end of a chain and
    /// zeroed, and the hint moves past it. Refused when none is free.
    #[verifier::spinoff_prover]
    #[verifier::rlimit(50)]
    pub fn alloc_free<D: BlockDevice>(&mut self, dev: &mut D) -> (r: Result<u32, &'static str>)
        requires
            old(self).wf(),
        ensures
            final(self).wf(),
            r is Err ==> final(self).hint == old(self).hint,
            final(self).max_cluster == old(self).max_cluster,
            final(self).root_cluster == old(self).root_cluster,
            final(self).spc == old(self).spc && final(self).data_start == old(self).data_start
                && final(self).fat_start == old(self).fat_start && final(self).fat_size == old(self).fat_size
                && final(self).num_fats == old(self).num_fats && final(self).fsinfo_sec == old(self).fsinfo_sec,
            r matches Ok(e) ==> {
                &&& 2 <= e <= old(self).max_cluster
                &&& old(self).entry(disk_of(old(dev)), e) == 0
                &&& disk_of(final(dev)) == old(self).zeroed(old(self).entry_put(disk_of(old(dev)), e, EOC), e)
                &&& final(self).hint == e + 1
            },
            healthy(old(dev), 512) ==> healthy(final(dev), 512),
            healthy(old(dev), 512) && (exists|e: u32| 2 <= e <= old(self).max_cluster && old(self).entry(disk_of(old(dev)), e) == 0)
                ==> r is Ok,
    {
        let ghost disk = disk_of(dev);
        let ghost h0: u32 = if self.hint > 2 { self.hint } else { 2 };
        let mut pass: u32 = 0;
        while pass < 2
            invariant
                self.wf(),
                *self == *old(self),
                disk_of(dev) == disk_of(old(dev)),
                disk == disk_of(old(dev)),
                pass <= 2,
                h0 == (if self.hint > 2 { self.hint } else { 2 }),
                healthy(old(dev), 512) ==> healthy(dev, 512),
                pass >= 1 ==> forall|x: u32| h0 <= x <= self.max_cluster ==> #[trigger] self.entry(disk, x) != 0,
                pass >= 2 ==> forall|x: u32| 2 <= x <= self.max_cluster ==> #[trigger] self.entry(disk, x) != 0,
            decreases 2 - pass,
        {
            let h: u32 = if self.hint > 2 { self.hint } else { 2 };
            let mut c: u32 = if pass == 0 { h } else { 2 };
            let stop: u32 = if pass == 0 { self.max_cluster } else { h };
            let ghost lo = c;
            while c <= stop && c <= self.max_cluster
                invariant
                    self.wf(),
                    *self == *old(self),
                    disk_of(dev) == disk_of(old(dev)),
                    disk == disk_of(old(dev)),
                    2 <= c <= self.max_cluster + 1,
                    2 <= lo <= c,
                    healthy(old(dev), 512) ==> healthy(dev, 512),
                    forall|x: u32| lo <= x < c ==> #[trigger] self.entry(disk, x) != 0,
                decreases self.max_cluster + 1 - c,
            {
                let sidx: u64 = (c as u64 * 4) / 512;
                let sec: u64 = self.fat_start + sidx;
                let mut b = zeroes(512);
                read_sector(dev, sec, &mut b)?;
                let (e, found) = self.scan_block(&b, c, sidx);
                if found {
                    assert(self.fat_block(e) == sec);
                    assert(self.entry(disk_of(old(dev)), e) == 0);
                    self.fat_set(dev, e, EOC)?;
                    self.zero_cluster(dev, e)?;
                    self.hint = e + 1;
                    return Ok(e);
                }
                assert forall|x: u32| lo <= x < e implies #[trigger] self.entry(disk, x) != 0 by {
                    if x >= c {
                        assert(self.busy_in(b@, x, sidx as int));
                        assert(self.fat_block(x) == sec);
                    }
                }
                c = e;
            }
            assert(pass == 0 ==> lo == h0);
            assert(pass == 1 ==> lo == 2);
            pass = pass + 1;
        }
        Err("ESP: bos yer yok")
    }

    /// Whether `n` links can be followed from cluster `c` on `disk`: each cluster on the way
    /// lies in the volume and its entry does not end the chain.
    pub open spec fn links(&self, disk: Disk, c: u32, n: nat) -> bool
        decreases n,
    {
        n == 0 || (2 <= c <= self.max_cluster && self.entry(disk, c) < 0x0FFF_FFF8 && self.links(
            disk,
            self.entry(disk, c) as u32,
            (n - 1) as nat,
        ))
    }

    /// The cluster reached from `c` on `disk` after `n` links.
    pub open spec fn hop(&self, disk: Disk, c: u32, n: nat) -> u32
        decreases n,
    {
        if n == 0 {
            c
        } else {
            self.hop(disk, self.entry(disk, c) as u32, (n - 1) as nat)
        }
    }

    /// One more link from where `k` links lead.
    proof fn lemma_links_grow(&self, disk: Disk, a: u32, k: nat)
        requires
            self.links(disk, a, k),
            2 <= self.hop(disk, a, k) <= self.max_cluster,
            self.entry(disk, self.hop(disk, a, k)) < 0x0FFF_FFF8,
        ensures
            self.links(disk, a, k + 1),
            self.hop(disk, a, k + 1) == self.entry(disk, self.hop(disk, a, k)) as u32,
        decreases k,
    {
        let e = self.entry(disk, a) as u32;
        if k > 0 {
            self.lemma_links_grow(disk, e, (k - 1) as nat);
            assert(((k + 1) - 1) as nat == k);
            assert(self.hop(disk, a, k) == self.hop(disk, e, (k - 1) as nat));
            assert(self.hop(disk, a, k + 1) == self.hop(disk, e, k));
            assert(self.links(disk, e, k));
        } else {
            assert(self.hop(disk, a, 0) == a);
            assert(self.links(disk, e, 0));
            assert(self.hop(disk, a, 1) == self.hop(disk, e, 0));
        }
    }

    /// Whether the `j`-th cluster of the chain from `dir` is one a search visits: the links
    /// before it can be followed and it lies in the volume.
    pub open spec fn visited(&self, disk: Disk, dir: u32, j: int) -> bool {
        0 <= j && self.links(disk, dir, j as nat) && 2 <= self.hop(disk, dir, j as nat) <= self.max_cluster
    }

    /// The record at `o` of block `s` of the `j`-th cluster of the chain from `dir`.
    pub open spec fn rec_in(&self, disk: Disk, dir: u32, j: int, s: int, o: int) -> Seq<u8> {
        disk((self.lba_of(self.hop(disk, dir, j as nat)) + s) as u64).subrange(o, o + 32)
    }

    /// Whether `(s, o)` names a record of a block of a cluster.
    pub open spec fn rec_pos(&self, s: int, o: int) -> bool {
        0 <= s < self.spc && 0 <= o < 512 && o % 32 == 0
    }

    /// Whether a search for `name` goes on past the record `rec`: it is not the end record
    /// and not a live short-name record of that name.
    pub open spec fn passes(rec: Seq<u8>, name: Seq<u8>) -> bool {
        rec[0] != 0 && !(rec[0] != 0xE5 && rec[11] != 0x0F && rec.subrange(0, 11) == name)
    }

    /// Whether no live short-name record named `name` lies in the directory at `dir` before
    /// its first end record, along the clusters a search visits.
    pub open spec fn name_absent(&self, disk: Disk, dir: u32, name: Seq<u8>) -> bool {
        forall|j: int, s: int, o: int|
            self.visited(disk, dir, j) && self.rec_pos(s, o) && !Self::passes(#[trigger] self.rec_in(disk, dir, j, s, o), name)
                ==> self.rec_in(disk, dir, j, s, o)[0] == 0 || exists|j2: int, s2: int, o2: int|
                self.rec_pos(s2, o2) && 0 <= j2 && crate::fsops::pos_before(j2, s2, o2, j, s, o)
                    && #[trigger] self.rec_in(disk, dir, j2, s2, o2)[0] == 0
    }

    /// Whether the record at `(j, s, o)` is the first a search for `name` in the directory at
    /// `dir` stops at that is a live short-name record of that name: every record before it
    /// passes.
    pub open spec fn first_named_at(&self, disk: Disk, dir: u32, name: Seq<u8>, j: int, s: int, o: int) -> bool {
        &&& self.visited(disk, dir, j)
        &&& self.rec_pos(s, o)
        &&& self.rec_in(disk, dir, j, s, o)[0] != 0
        &&& !Self::passes(self.rec_in(disk, dir, j, s, o), name)
        &&& forall|j2: int, s2: int, o2: int|
            self.visited(disk, dir, j2) && self.rec_pos(s2, o2) && crate::fsops::pos_before(j2, s2, o2, j, s, o)
                ==> Self::passes(#[trigger] self.rec_in(disk, dir, j2, s2, o2), name)
    }

    /// Whether the first record a search for `name` in the directory at `dir` stops at is a
    /// directory of that name.
    pub open spec fn dir_named_first(&self, disk: Disk, dir: u32, name: Seq<u8>) -> bool {
        exists|j: int, s: int, o: int| #[trigger] self.first_named_at(disk, dir, name, j, s, o)
            && rec_is_dir(self.rec_in(disk, dir, j, s, o))
    }

    /// The record a search for `name` in the directory at `dir` finds, when one is first:
    /// its first cluster, size and whether it is a directory.
    pub open spec fn found_record(rec: Seq<u8>) -> (int, int, bool) {
        (rec_cluster(rec), le32(rec, 28) as int, rec_is_dir(rec))
    }

    /// There is at most one first record of a name.
    proof fn lemma_first_named_unique(&self, disk: Disk, dir: u32, name: Seq<u8>, j1: int, s1: int, o1: int, j2: int, s2: int, o2: int)
        requires
            self.first_named_at(disk, dir, name, j1, s1, o1),
            self.first_named_at(disk, dir, name, j2, s2, o2),
        ensures
            j1 == j2 && s1 == s2 && o1 == o2,
    {
        if crate::fsops::pos_before(j1, s1, o1, j2, s2, o2) {
            assert(Self::passes(self.rec_in(disk, dir, j1, s1, o1), name));
        } else if crate::fsops::pos_before(j2, s2, o2, j1, s1, o1) {
            assert(Self::passes(self.rec_in(disk, dir, j2, s2, o2), name));
        }
    }

    /// A name whose first record exists is not absent.
    proof fn lemma_first_named_present(&self, disk: Disk, dir: u32, name: Seq<u8>, j: int, s: int, o: int)
        requires
            self.first_named_at(disk, dir, name, j, s, o),
        ensures
            !self.name_absent(disk, dir, name),
    {
        if self.name_absent(disk, dir, name) {
            assert(self.visited(disk, dir, j) && self.rec_pos(s, o) && !Self::passes(self.rec_in(disk, dir, j, s, o), name));
            if exists|j2: int, s2: int, o2: int|
                self.rec_pos(s2, o2) && 0 <= j2 && crate::fsops::pos_before(j2, s2, o2, j, s, o)
                    && #[trigger] self.rec_in(disk, dir, j2, s2, o2)[0] == 0 {
                let (j2, s2, o2) = choose|j2: int, s2: int, o2: int|
                    self.rec_pos(s2, o2) && 0 <= j2 && crate::fsops::pos_before(j2, s2, o2, j, s, o)
                        && #[trigger] self.rec_in(disk, dir, j2, s2, o2)[0] == 0;
                assert(self.visited(disk, dir, j2)) by {
                    if j2 < j {
                        self.lemma_links_prefix(disk, dir, j as nat, j2 as nat);
                        assert(self.links(disk, dir, j2 as nat)) by {
                            if j2 > 0 {
                                self.lemma_links_prefix(disk, dir, j as nat, (j2 - 1) as nat);
                            }
                        }
                    }
                }
                assert(Self::passes(self.rec_in(disk, dir, j2, s2, o2), name));
            }
        }
    }

    /// Links that can be followed `j` times can be followed fewer times, and each cluster
    /// before the last lies in the volume with an entry that goes on.
    proof fn lemma_links_prefix(&self, disk: Disk, a: u32, j: nat, k: nat)
        requires
            self.links(disk, a, j),
            k < j,
        ensures
            self.links(disk, a, k + 1),
            2 <= self.hop(disk, a, k) <= self.max_cluster,
            self.entry(disk, self.hop(disk, a, k)) < 0x0FFF_FFF8,
        decreases j,
    {
        let e = self.entry(disk, a) as u32;
        if k > 0 {
            self.lemma_links_prefix(disk, e, (j - 1) as nat, (k - 1) as nat);
            assert(self.hop(disk, a, k) == self.hop(disk, e, (k - 1) as nat));
            assert(((k + 1) - 1) as nat == k);
        } else {
            assert(self.hop(disk, a, 0) == a);
            assert(self.links(disk, e, 0));
        }
    }

    /// A search that passed every record before `(g, s, off)` and stops there, at a cluster
    /// it does not visit or at an end record, finds nothing.
    proof fn lemma_find_ends(&self, disk: Disk, dir: u32, name: Seq<u8>, g: int, s: int, off: int)
        requires
            0 <= g,
            forall|j: int, s2: int, o: int|
                self.visited(disk, dir, j) && self.rec_pos(s2, o) && crate::fsops::pos_before(j, s2, o, g, s, off)
                    ==> Self::passes(#[trigger] self.rec_in(disk, dir, j, s2, o), name),
            !self.visited(disk, dir, g) || (self.rec_pos(s, off) && self.rec_in(disk, dir, g, s, off)[0] == 0),
            !self.visited(disk, dir, g) ==> forall|j: int| j > g ==> !#[trigger] self.visited(disk, dir, j),
        ensures
            self.name_absent(disk, dir, name),
    {
        assert forall|j: int, s2: int, o: int|
            self.visited(disk, dir, j) && self.rec_pos(s2, o) && !Self::passes(#[trigger] self.rec_in(disk, dir, j, s2, o), name)
            implies self.rec_in(disk, dir, j, s2, o)[0] == 0 || exists|j2: int, s3: int, o2: int|
                self.rec_pos(s3, o2) && 0 <= j2 && crate::fsops::pos_before(j2, s3, o2, j, s2, o)
                    && #[trigger] self.rec_in(disk, dir, j2, s3, o2)[0] == 0 by {
            if crate::fsops::pos_before(j, s2, o, g, s, off) {
            } else if j == g && s2 == s && o == off {
            } else {
                if self.visited(disk, dir, g) {
                    assert(crate::fsops::pos_before(g, s, off, j, s2, o));
                    assert(self.rec_in(disk, dir, g, s, off)[0] == 0);
                } else {
                    assert(j >= g);
                }
            }
        }
    }

    /// Looks for the record named `name` in the directory whose first cluster is `dir`,
    /// following its chain up to its end record: gives its first cluster, size and whether
    /// it is a directory, or nothing. Deleted and long-name records are passed over; a chain
    /// of more than 4096 clusters is refused.
    pub fn find<D: BlockDevice>(&self, dev: &mut D, dir: u32, name: &[u8; 11]) -> (r: Result<Option<(u32, u32, bool)>, &'static str>)
        requires
            self.wf(),
        ensures
            disk_of(final(dev)) == disk_of(old(dev)),
            r matches Ok(Some((c, sz, d))) ==> named_entry(disk_of(old(dev)), name@, c as int, sz as int, d),
            healthy(old(dev), 512) ==> healthy(final(dev), 512),
            healthy(old(dev), 512) && r is Err ==> self.links(disk_of(old(dev)), dir, 4097),
            r == Ok::<Option<(u32, u32, bool)>, &'static str>(None) ==> self.name_absent(disk_of(old(dev)), dir, name@),
            r matches Ok(Some((c, sz, d))) ==> exists|j: int, s: int, o: int|
                #[trigger] self.first_named_at(disk_of(old(dev)), dir, name@, j, s, o)
                    && Self::found_record(self.rec_in(disk_of(old(dev)), dir, j, s, o)) == (c as int, sz as int, d),
    {
        let ghost disk = disk_of(dev);
        let mut c: u32 = dir;
        let mut guard: u32 = 0;
        loop
            invariant
                self.wf(),
                disk_of(dev) == disk_of(old(dev)),
                disk == disk_of(old(dev)),
                guard <= 4096,
                healthy(old(dev), 512) ==> healthy(dev, 512),
                c == self.hop(disk, dir, guard as nat),
                self.links(disk, dir, guard as nat),
                forall|j: int, s2: int, o2: int|
                    self.visited(disk, dir, j) && self.rec_pos(s2, o2) && crate::fsops::pos_before(j, s2, o2, guard as int, 0, 0)
                        ==> Self::passes(#[trigger] self.rec_in(disk, dir, j, s2, o2), name@),
            decreases 4097 - guard,
        {
            if c < 2 || c > self.max_cluster {
                proof {
                    assert forall|j: int| j > guard implies !#[trigger] self.visited(disk, dir, j) by {
                        if self.visited(disk, dir, j) {
                            self.lemma_links_prefix(disk, dir, j as nat, guard as nat);
                        }
                    }
                    self.lemma_find_ends(disk, dir, name@, guard as int, 0, 0);
                }
                return Ok(None);
            }
            let lba = self.cluster_lba(c);
            let mut s: u32 = 0;
            while s < self.spc
                invariant
                    self.wf(),
                    disk_of(dev) == disk_of(old(dev)),
                    disk == disk_of(old(dev)),
                    lba <= 0x100_0000_0000,
                    lba == self.lba_of(c),
                    2 <= c <= self.max_cluster,
                    c == self.hop(disk, dir, guard as nat),
                    self.links(disk, dir, guard as nat),
                    s <= self.spc,
                    healthy(old(dev), 512) ==> healthy(dev, 512),
                    forall|j: int, s2: int, o2: int|
                    self.visited(disk, dir, j) && self.rec_pos(s2, o2) && crate::fsops::pos_before(j, s2, o2, guard as int, s as int, 0)
                        ==> Self::passes(#[trigger] self.rec_in(disk, dir, j, s2, o2), name@),
                decreases self.spc - s,
            {
                let blk: u64 = lba + s as u64;
                let mut b = zeroes(512);
                read_sector(dev, blk, &mut b)?;
                let mut o: usize = 0;
                while o < 512
                    invariant
                        self.wf(),
                        disk_of(dev) == disk_of(old(dev)),
                        healthy(old(dev), 512) ==> healthy(dev, 512),
                        b@ == disk_of(old(dev))(blk),
                        b@.len() == 512,
                        o <= 512,
                        o % 32 == 0,
                        disk == disk_of(old(dev)),
                        lba == self.lba_of(c),
                        blk == lba + s,
                        s < self.spc,
                        2 <= c <= self.max_cluster,
                        c == self.hop(disk, dir, guard as nat),
                        self.links(disk, dir, guard as nat),
                        forall|j: int, s2: int, o2: int|
                    self.visited(disk, dir, j) && self.rec_pos(s2, o2) && crate::fsops::pos_before(j, s2, o2, guard as int, s as int, o as int)
                        ==> Self::passes(#[trigger] self.rec_in(disk, dir, j, s2, o2), name@),
                    decreases 512 - o,
                {
                    assert(self.rec_in(disk, dir, guard as int, s as int, o as int) =~= b@.subrange(o as int, o + 32));
                    if b[o] == 0x00 {
                        proof {
                            self.lemma_find_ends(disk, dir, name@, guard as int, s as int, o as int);
                        }
                        return Ok(None);
                    }
                    if b[o] != 0xE5 && b[o + 11] != 0x0F {
                        let head = slice_of(b.as_slice(), o, o + 11);
                        if bytes_eq(head.as_slice(), name.as_slice()) {
                            let hi = get_le16(b.as_slice(), o + 20) as u32;
                            let lo = get_le16(b.as_slice(), o + 26) as u32;
                            assert(hi * 0x1_0000 + lo <= 0xFFFF_FFFF) by (nonlinear_arith)
                                requires hi <= 0xFFFF, lo <= 0xFFFF;
                            let fc: u32 = hi * 0x1_0000 + lo;
                            let sz = get_le32(b.as_slice(), o + 28);
                            let d: bool = b[o + 11] & 0x10 != 0;
                            proof {
                                let rec = disk_of(old(dev))(blk).subrange(o as int, o + 32);
                                assert(rec.subrange(0, 11) =~= name@);
                                assert(rec_cluster(rec) == fc);
                                assert(le32(rec, 28) == sz);
                                assert(rec_is_dir(rec) == d);
                                assert(rec == self.rec_in(disk, dir, guard as int, s as int, o as int));
                                assert(rec[0] == b[o as int] && rec[11] == b@[o + 11]);
                                assert(self.visited(disk, dir, guard as int));
                                assert(self.first_named_at(disk, dir, name@, guard as int, s as int, o as int));
                            }
                            return Ok(Some((fc, sz, d)));
                        }
                    }
                    proof {
                        let rec = self.rec_in(disk, dir, guard as int, s as int, o as int);
                        assert(rec.subrange(0, 11) =~= b@.subrange(o as int, o + 11));
                        assert(Self::passes(rec, name@));
                        assert forall|j: int, s2: int, o2: int|
                            self.visited(disk, dir, j) && self.rec_pos(s2, o2) && crate::fsops::pos_before(j, s2, o2, guard as int, s as int, o + 32)
                                implies Self::passes(#[trigger] self.rec_in(disk, dir, j, s2, o2), name@) by {
                            if j == guard && s2 == s && o2 >= o {
                                assert(o2 == o);
                            }
                        }
                    }
                    o = o + 32;
                }
                proof {
                    assert forall|j: int, s2: int, o2: int|
                        self.visited(disk, dir, j) && self.rec_pos(s2, o2) && crate::fsops::pos_before(j, s2, o2, guard as int, s + 1, 0)
                            implies Self::passes(#[trigger] self.rec_in(disk, dir, j, s2, o2), name@) by {
                        if j == guard && s2 == s {
                            assert(crate::fsops::pos_before(j, s2, o2, guard as int, s as int, o as int));
                        }
                    }
                }
                s = s + 1;
            }
            let ghost prev = c;
            c = self.fat_get(dev, c)?;
            proof {
                assert forall|j: int, s2: int, o2: int|
                    self.visited(disk, dir, j) && self.rec_pos(s2, o2) && crate::fsops::pos_before(j, s2, o2, guard + 1, 0, 0)
                        implies Self::passes(#[trigger] self.rec_in(disk, dir, j, s2, o2), name@) by {
                    if j == guard {
                        assert(crate::fsops::pos_before(j, s2, o2, guard as int, self.spc as int, 0));
                    }
                }
            }
            if c >= 0x0FFF_FFF8 {
                proof {
                    assert forall|j: int| j > guard + 1 implies !#[trigger] self.visited(disk, dir, j) by {
                        if self.visited(disk, dir, j) {
                            self.lemma_links_prefix(disk, dir, j as nat, guard as nat);
                        }
                    }
                    if self.visited(disk, dir, guard + 1) {
                        self.lemma_links_prefix(disk, dir, (guard + 1) as nat, guard as nat);
                    }
                    self.lemma_find_ends(disk, dir, name@, guard + 1, 0, 0);
                }
                return Ok(None);
            }
            proof {
                self.lemma_links_grow(disk, dir, guard as nat);
            }
            guard = guard + 1;
            if guard > 4096 {
                return Err("ESP: dizin dongusu");
            }
        }
    }

    /// Whether record `o` of block `s` of cluster `c` on `disk` is free: never used or deleted.
    pub open spec fn free_at(&self, disk: Disk, c: u32, s: int, o: int) -> bool {
        let b = disk((self.lba_of(c) + s) as u64);
        b[o] == 0 || b[o] == 0xE5
    }

    /// Whether cluster `c` on `disk` holds a free record.
    pub open spec fn cluster_has_free(&self, disk: Disk, c: u32) -> bool {
        exists|s: int, o: int| 0 <= s < self.spc && 0 <= o < 512 && o % 32 == 0 && #[trigger] self.free_at(disk, c, s, o)
    }

    /// Whether a free record lies in one of the first `n` clusters of the chain from `c`,
    /// every cluster before it in the volume.
    pub open spec fn free_within(&self, disk: Disk, c: u32, n: nat) -> bool
        decreases n,
    {
        n > 0 && 2 <= c <= self.max_cluster && (self.cluster_has_free(disk, c) || (self.entry(disk, c) < 0x0FFF_FFF8
            && self.free_within(disk, self.entry(disk, c) as u32, (n - 1) as nat)))
    }

    /// Adds an entry named `name` to the directory whose first cluster is `dir`: it goes in
    /// the first free or deleted record of the directory's chain, which grows by a free
    /// cluster when it is full. A directory cluster outside the volume, or a chain of more
    /// than 4096 clusters, is refused.
    pub fn add_entry<D: BlockDevice>(&mut self, dev: &mut D, dir: u32, name: &[u8; 11], attr: u8, first: u32, size: u32) -> (r: Result<(), &'static str>)
        requires
            old(self).wf(),
        ensures
            final(self).wf(),
            final(self).max_cluster == old(self).max_cluster,
            final(self).root_cluster == old(self).root_cluster,
            final(self).spc == old(self).spc && final(self).data_start == old(self).data_start
                && final(self).fat_start == old(self).fat_start && final(self).fat_size == old(self).fat_size
                && final(self).num_fats == old(self).num_fats && final(self).fsinfo_sec == old(self).fsinfo_sec,
            r is Ok ==> has_record(disk_of(final(dev)), dir_record(name@, attr, first, size)),
            healthy(old(dev), 512) ==> healthy(final(dev), 512),
            healthy(old(dev), 512) && old(self).free_within(disk_of(old(dev)), dir, 4097) ==> r is Ok,
            healthy(old(dev), 512) && old(self).free_within(disk_of(old(dev)), dir, 4097) ==> exists|c: u32, l: u64, b: Seq<u8>|
                #![trigger in_chain(*old(self), disk_of(old(dev)), dir, 4097, c), disk_put(disk_of(old(dev)), l, b)]
                in_chain(*old(self), disk_of(old(dev)), dir, 4097, c) && old(self).lba_of(c) <= l < old(self).lba_of(c)
                    + old(self).spc && disk_of(final(dev)) == disk_put(disk_of(old(dev)), l, b),
    {
        let ghost disk = disk_of(dev);
        let ghost fw = healthy(old(dev), 512) && old(self).free_within(disk, dir, 4097);
        let rec = Fmt::make_record(name, attr, first, size);
        let mut c: u32 = dir;
        let mut guard: u32 = 0;
        loop
            invariant
                self.wf(),
                disk == disk_of(old(dev)),
                healthy(old(dev), 512) ==> healthy(dev, 512),
                fw == (healthy(old(dev), 512) && old(self).free_within(disk, dir, 4097)),
                fw ==> disk_of(dev) == disk && self.free_within(disk, c, (4097 - guard) as nat),
                fw ==> *self == *old(self) && self.links(disk, dir, guard as nat) && c == self.hop(disk, dir, guard as nat),
                self.max_cluster == old(self).max_cluster,
                self.root_cluster == old(self).root_cluster,
                self.spc == old(self).spc && self.data_start == old(self).data_start
                    && self.fat_start == old(self).fat_start && self.fat_size == old(self).fat_size
                    && self.num_fats == old(self).num_fats && self.fsinfo_sec == old(self).fsinfo_sec,
                guard <= 4096,
                rec@ == dir_record(name@, attr, first, size),
            decreases 4097 - guard,
        {
            if c < 2 || c > self.max_cluster {
                return Err("ESP: dizin gecersiz");
            }
            let lba = self.cluster_lba(c);
            proof {
                if fw {
                    lemma_hop_in_chain(*old(self), disk, dir, 4097, guard as nat);
                }
            }
            let mut s: u32 = 0;
            while s < self.spc
                invariant
                    self.wf(),
                    self.max_cluster == old(self).max_cluster,
                    self.root_cluster == old(self).root_cluster,
                    self.spc == old(self).spc && self.data_start == old(self).data_start
                        && self.fat_start == old(self).fat_start && self.fat_size == old(self).fat_size
                        && self.num_fats == old(self).num_fats && self.fsinfo_sec == old(self).fsinfo_sec,
                    lba <= 0x100_0000_0000,
                    s <= self.spc,
                    rec@ == dir_record(name@, attr, first, size),
                    rec@.len() == 32,
                    disk == disk_of(old(dev)),
                    healthy(old(dev), 512) ==> healthy(dev, 512),
                    fw == (healthy(old(dev), 512) && old(self).free_within(disk, dir, 4097)),
                    fw ==> disk_of(dev) == disk && self.free_within(disk, c, (4097 - guard) as nat),
                    fw ==> *self == *old(self) && in_chain(*old(self), disk, dir, 4097, c),
                    2 <= c <= self.max_cluster,
                    lba == self.lba_of(c),
                    forall|s2: int, o2: int| 0 <= s2 < s && 0 <= o2 < 512 && o2 % 32 == 0 ==> !#[trigger] self.free_at(disk_of(dev), c, s2, o2),
                decreases self.spc - s,
            {
                let blk: u64 = lba + s as u64;
                let mut b = zeroes(512);
                read_sector(dev, blk, &mut b)?;
                let mut o: usize = 0;
                while o < 512
                    invariant
                        self.wf(),
                        self.max_cluster == old(self).max_cluster,
                        self.root_cluster == old(self).root_cluster,
                        self.spc == old(self).spc && self.data_start == old(self).data_start
                            && self.fat_start == old(self).fat_start && self.fat_size == old(self).fat_size
                            && self.num_fats == old(self).num_fats && self.fsinfo_sec == old(self).fsinfo_sec,
                        b@.len() == 512,
                        o <= 512,
                        o % 32 == 0,
                        rec@ == dir_record(name@, attr, first, size),
                        rec@.len() == 32,
                        disk == disk_of(old(dev)),
                        healthy(old(dev), 512) ==> healthy(dev, 512),
                        fw == (healthy(old(dev), 512) && old(self).free_within(disk, dir, 4097)),
                        fw ==> disk_of(dev) == disk && self.free_within(disk, c, (4097 - guard) as nat),
                        fw ==> *self == *old(self) && in_chain(*old(self), disk, dir, 4097, c),
                        2 <= c <= self.max_cluster,
                        lba == self.lba_of(c),
                        s < self.spc,
                        blk == lba + s,
                        b@ == disk_of(dev)(blk),
                        forall|s2: int, o2: int| 0 <= s2 < s && 0 <= o2 < 512 && o2 % 32 == 0 ==> !#[trigger] self.free_at(disk_of(dev), c, s2, o2),
                        forall|o2: int| 0 <= o2 < o && o2 % 32 == 0 ==> !#[trigger] self.free_at(disk_of(dev), c, s as int, o2),
                    decreases 512 - o,
                {
                    if b[o] == 0x00 || b[o] == 0xE5 {
                        put_bytes(&mut b, o, rec.as_slice());
                        write_sector(dev, blk, b.as_slice())?;
                        proof {
                            assert(disk_of(dev)(blk).subrange(o as int, o + 32) =~= rec@);
                        }
                        return Ok(());
                    }
                    assert(!self.free_at(disk_of(dev), c, s as int, o as int));
                    o = o + 32;
                }
                proof {
                    assert forall|s2: int, o2: int| 0 <= s2 < s + 1 && 0 <= o2 < 512 && o2 % 32 == 0
                        implies !#[trigger] self.free_at(disk_of(dev), c, s2, o2) by {
                        if s2 == s as int {
                            assert(o2 < o);
                        }
                    }
                }
                s = s + 1;
            }
            proof {
                if fw {
                    assert(!self.cluster_has_free(disk, c)) by {
                        assert forall|s2: int, o2: int| 0 <= s2 < self.spc && 0 <= o2 < 512 && o2 % 32 == 0
                            implies !#[trigger] self.free_at(disk, c, s2, o2) by {
                            assert(!self.free_at(disk_of(dev), c, s2, o2));
                        }
                    }
                }
            }
            let n = self.fat_get(dev, c)?;
            let ghost g0 = guard;
            let ghost c0 = c;
            if n >= 0x0FFF_FFF8 {
                assert(!fw);
                let nc = self.alloc_free(dev)?;
                self.fat_set(dev, c, nc)?;
                c = nc;
            } else {
                c = n;
            }
            proof {
                if fw {
                    self.lemma_links_grow(disk, dir, g0 as nat);
                }
            }
            guard = guard + 1;
            assert(fw ==> self.free_within(disk, c, (4097 - guard) as nat));
            if guard > 4096 {
                return Err("ESP: dizin dongusu");
            }
        }
    }

    /// `free_within` asks nothing of the search hint.
    proof fn lemma_free_within_geom(&self, other: &Esp, disk: Disk, c: u32, n: nat)
        requires
            self.same_geom(other),
        ensures
            self.free_within(disk, c, n) == other.free_within(disk, c, n),
        decreases n,
    {
        if n > 0 {
            self.lemma_free_within_geom(other, disk, self.entry(disk, c) as u32, (n - 1) as nat);
            if self.cluster_has_free(disk, c) {
                let (s, o) = choose|s: int, o: int| 0 <= s < self.spc && 0 <= o < 512 && o % 32 == 0 && #[trigger] self.free_at(disk, c, s, o);
                assert(other.free_at(disk, c, s, o));
            }
            if other.cluster_has_free(disk, c) {
                let (s, o) = choose|s: int, o: int| 0 <= s < other.spc && 0 <= o < 512 && o % 32 == 0 && #[trigger] other.free_at(disk, c, s, o);
                assert(self.free_at(disk, c, s, o));
            }
        }
    }

    /// `disk` once the free cluster `e` is made a new directory of `parent`: its FAT entry
    /// ending a chain, the cluster zeroed, its first block holding `dot_block` (`..` naming
    /// cluster 0 for the root).
    pub open spec fn new_dir_disk(&self, disk: Disk, e: u32, parent: u32) -> Disk {
        let pc: u32 = if parent == self.root_cluster { 0 } else { parent };
        disk_put(self.zeroed(self.entry_put(disk, e, EOC), e), self.lba_of(e) as u64, dot_block(e, pc))
    }

    /// Whether making a directory in the directory at `parent` on `disk` is blocked: no
    /// cluster is free, or, once a free cluster is taken for it, the parent has no free record
    /// within its first 4097 clusters.
    pub open spec fn mkdir_blocked(&self, disk: Disk, parent: u32) -> bool {
        ||| (forall|e: u32| 2 <= e <= self.max_cluster ==> #[trigger] self.entry(disk, e) != 0)
        ||| exists|e: u32| 2 <= e <= self.max_cluster && self.entry(disk, e) == 0
                && !self.free_within(#[trigger] self.new_dir_disk(disk, e, parent), parent, 4097)
    }

    /// Makes a directory named `name` in the directory whose first cluster is `parent`: a
    /// free cluster, zeroed, whose first block holds the `.` and `..` records (`..` naming
    /// cluster 0 when the parent is the root), and an entry for it in the parent. Gives the
    /// new directory's cluster.
    pub fn make_dir<D: BlockDevice>(&mut self, dev: &mut D, parent: u32, name: &[u8; 11]) -> (r: Result<u32, &'static str>)
        requires
            old(self).wf(),
        ensures
            final(self).wf(),
            old(self).same_geom(final(self)),
            r matches Ok(c) ==> 2 <= c <= old(self).max_cluster && has_record(disk_of(final(dev)), dir_record(name@, 0x10, c, 0)),
            healthy(old(dev), 512) ==> healthy(final(dev), 512),
            healthy(old(dev), 512) && r is Err ==> old(self).mkdir_blocked(disk_of(old(dev)), parent),
    {
        let c = self.alloc_free(dev)?;
        let lba = self.cluster_lba(c);
        let dot: [u8; 11] = [0x2E, 0x20, 0x20, 0x20, 0x20, 0x20, 0x20, 0x20, 0x20, 0x20, 0x20];
        let dotdot: [u8; 11] = [0x2E, 0x2E, 0x20, 0x20, 0x20, 0x20, 0x20, 0x20, 0x20, 0x20, 0x20];
        let d1 = Fmt::make_record(&dot, 0x10, c, 0);
        let pc: u32 = if parent == self.root_cluster { 0 } else { parent };
        let d2 = Fmt::make_record(&dotdot, 0x10, pc, 0);
        let mut b = zeroes(512);
        put_bytes(&mut b, 0, d1.as_slice());
        put_bytes(&mut b, 32, d2.as_slice());
        proof {
            assert(dot@ =~= dot_name());
            assert(dotdot@ =~= dotdot_name());
            assert(b@ =~= dot_block(c, pc));
        }
        write_sector(dev, lba, b.as_slice())?;
        let ghost mid = disk_of(dev);
        let ghost before = *self;
        assert(mid == old(self).new_dir_disk(disk_of(old(dev)), c, parent));
        match self.add_entry(dev, parent, name, 0x10, c, 0) {
            Ok(()) => {},
            Err(e) => {
                proof {
                    before.lemma_free_within_geom(old(self), mid, parent, 4097);
                }
                return Err(e);
            },
        }
        Ok(c)
    }

    /// The directory named `name` in the directory whose first cluster is `parent`, made when
    /// there is none. A file of that name, or a directory record whose cluster lies outside
    /// the volume, is refused.
    pub fn ensure_dir<D: BlockDevice>(&mut self, dev: &mut D, parent: u32, name: &[u8; 11]) -> (r: Result<u32, &'static str>)
        requires
            old(self).wf(),
        ensures
            final(self).wf(),
            old(self).same_geom(final(self)),
            r matches Ok(c) ==> 2 <= c <= old(self).max_cluster && (has_record(disk_of(final(dev)), dir_record(name@, 0x10, c, 0))
                || (disk_of(final(dev)) == disk_of(old(dev)) && exists|sz: int| named_entry(disk_of(final(dev)), name@, c as int, sz, true))),
            healthy(old(dev), 512) ==> healthy(final(dev), 512),
            healthy(old(dev), 512) && r is Err ==> ({
                let disk = disk_of(old(dev));
                ||| old(self).links(disk, parent, 4097)
                ||| exists|c: int, sz: int| #[trigger] named_entry(disk, name@, c, sz, false)
                ||| exists|c: int, sz: int| (c < 2 || c > old(self).max_cluster) && #[trigger] named_entry(disk, name@, c, sz, true)
                ||| old(self).mkdir_blocked(disk, parent)
            }),
    {
        match self.find(dev, parent, name)? {
            Some((c, sz, is_dir)) => {
                if !is_dir {
                    return Err("ESP: ayni isimde dosya var");
                }
                if c < 2 || c > self.max_cluster {
                    return Err("ESP: klasor cluster gecersiz");
                }
                assert(named_entry(disk_of(dev), name@, c as int, sz as int, true));
                Ok(c)
            },
            None => self.make_dir(dev, parent, name),
        }
    }

    /// `disk` after the chain from `c` is freed, following at most `n` clusters: each entry
    /// is read, then set to zero; the walk stops after an entry below 2 or at the end of a
    /// chain, or at a cluster outside the volume.
    #[verifier::opaque]
    pub open spec fn chain_freed(&self, disk: Disk, c: u32, n: nat) -> Disk
        decreases n,
    {
        if n == 0 || c < 2 || c > self.max_cluster {
            disk
        } else {
            let nx = self.entry(disk, c);
            let d1 = self.entry_put(disk, c, 0);
            if nx < 2 || nx >= 0x0FFF_FFF8 {
                d1
            } else {
                self.chain_freed(d1, nx as u32, (n - 1) as nat)
            }
        }
    }

    /// One step of `chain_freed`.
    pub proof fn lemma_chain_freed(&self, disk: Disk, c: u32, n: nat)
        ensures
            self.chain_freed(disk, c, n) == (if n == 0 || c < 2 || c > self.max_cluster {
                disk
            } else if self.entry(disk, c) < 2 || self.entry(disk, c) >= 0x0FFF_FFF8 {
                self.entry_put(disk, c, 0)
            } else {
                self.chain_freed(self.entry_put(disk, c, 0), self.entry(disk, c) as u32, (n - 1) as nat)
            }),
    {
        reveal_with_fuel(Esp::chain_freed, 1);
    }

    /// Frees the cluster chain from `start`: each entry set to zero, up to the end of the chain
    /// (at most 100000 clusters). Nothing happens for a start outside the volume.
    #[verifier::spinoff_prover]
    #[verifier::rlimit(60)]
    pub fn free_chain<D: BlockDevice>(&mut self, dev: &mut D, start: u32) -> (r: Result<(), &'static str>)
        requires
            old(self).wf(),
        ensures
            *final(self) == *old(self),
            start < 2 || start > old(self).max_cluster ==> r is Ok && disk_of(final(dev)) == disk_of(old(dev)),
            r is Ok ==> disk_of(final(dev)) == old(self).chain_freed(disk_of(old(dev)), start, 100_001),
            healthy(old(dev), 512) ==> r is Ok && healthy(final(dev), 512),
    {
        let mut c: u32 = start;
        let mut guard: u32 = 0;
        let ghost d0 = disk_of(dev);
        proof {
            self.lemma_chain_freed(d0, start, 100_001);
        }
        while c >= 2 && c <= self.max_cluster
            invariant_except_break
                self.chain_freed(d0, start, 100_001) == self.chain_freed(disk_of(dev), c, (100_001 - guard) as nat),
                !(c >= 2 && c <= self.max_cluster) ==> self.chain_freed(disk_of(dev), c, (100_001 - guard) as nat)
                    == disk_of(dev),
            invariant
                self.wf(),
                *self == *old(self),
                guard <= 100_000,
                (start < 2 || start > self.max_cluster) ==> disk_of(dev) == d0 && c == start,
                d0 == disk_of(old(dev)),
                healthy(old(dev), 512) ==> healthy(dev, 512),
            ensures
                self.chain_freed(d0, start, 100_001) == disk_of(dev),
            decreases 100_000 - guard,
        {
            let ghost d = disk_of(dev);
            let n = self.fat_get(dev, c)?;
            self.fat_set(dev, c, 0)?;
            proof {
                self.lemma_chain_freed(d, c, (100_001 - guard) as nat);
            }
            if n < 2 || n >= 0x0FFF_FFF8 {
                break;
            }
            if guard >= 100_000 {
                proof {
                    self.lemma_chain_freed(disk_of(dev), n, 0);
                }
                break;
            }
            c = n;
            guard = guard + 1;
            proof {
                self.lemma_chain_freed(disk_of(dev), c, (100_001 - guard) as nat);
            }
        }
        Ok(())
    }

    /// `disk` after blocks `s` on of cluster `c` are passed through `unlink_block`, one after
    /// the other until one holds an end record; and whether one did.
    pub open spec fn unlink_blocks(&self, disk: Disk, c: u32, s: int, name: Seq<u8>) -> (Disk, bool)
        decreases self.spc - s,
    {
        if s < 0 || s >= self.spc {
            (disk, false)
        } else {
            let l = (self.lba_of(c) + s) as u64;
            let ub = unlink_block(disk(l), name, 0);
            let d2 = disk_put(disk, l, ub.0);
            if ub.1 {
                (d2, true)
            } else {
                self.unlink_blocks(d2, c, s + 1, name)
            }
        }
    }

    /// `disk` after the records named `name` of the directory at `c` are deleted along its
    /// chain, at most `n` clusters, up to an end record, the end of the chain or a cluster
    /// outside the volume.
    pub open spec fn unlinked(&self, disk: Disk, c: u32, name: Seq<u8>, n: nat) -> Disk
        decreases n,
    {
        if n == 0 || c < 2 || c > self.max_cluster {
            disk
        } else {
            let (d2, done) = self.unlink_blocks(disk, c, 0, name);
            if done {
                d2
            } else {
                let nx = self.entry(d2, c);
                if nx >= 0x0FFF_FFF8 {
                    d2
                } else {
                    self.unlinked(d2, nx as u32, name, (n - 1) as nat)
                }
            }
        }
    }

    /// Marks every record named `name` in the directory whose first cluster is `dir` deleted
    /// (first byte 0xE5), block by block, up to the directory's end record. Nothing happens
    /// for a directory outside the volume.
    pub fn remove_entry<D: BlockDevice>(&mut self, dev: &mut D, dir: u32, name: &[u8; 11]) -> (r: Result<(), &'static str>)
        requires
            old(self).wf(),
        ensures
            *final(self) == *old(self),
            dir < 2 || dir > old(self).max_cluster ==> r is Ok && disk_of(final(dev)) == disk_of(old(dev)),
            healthy(old(dev), 512) ==> r is Ok && healthy(final(dev), 512),
            r is Ok ==> disk_of(final(dev)) == old(self).unlinked(disk_of(old(dev)), dir, name@, 4097),
    {
        let mut c: u32 = dir;
        let mut guard: u32 = 0;
        let ghost target = self.unlinked(disk_of(dev), dir, name@, 4097);
        loop
            invariant
                self.wf(),
                *self == *old(self),
                healthy(old(dev), 512) ==> healthy(dev, 512),
                guard <= 4096,
                (dir < 2 || dir > self.max_cluster) ==> c == dir && disk_of(dev) == disk_of(old(dev)),
                target == old(self).unlinked(disk_of(old(dev)), dir, name@, 4097),
                target == self.unlinked(disk_of(dev), c, name@, (4097 - guard) as nat),
            decreases 4097 - guard,
        {
            if c < 2 || c > self.max_cluster {
                return Ok(());
            }
            let lba = self.cluster_lba(c);
            let ghost dc = disk_of(dev);
            let mut s: u32 = 0;
            while s < self.spc
                invariant
                    self.wf(),
                    *self == *old(self),
                    2 <= dir <= self.max_cluster,
                    2 <= c <= self.max_cluster,
                    lba <= 0x100_0000_0000,
                    lba == self.lba_of(c),
                    s <= self.spc,
                    healthy(old(dev), 512) ==> healthy(dev, 512),
                    self.unlink_blocks(dc, c, 0, name@) == self.unlink_blocks(disk_of(dev), c, s as int, name@),
                    guard <= 4096,
                    target == self.unlinked(dc, c, name@, (4097 - guard) as nat),
                    target == old(self).unlinked(disk_of(old(dev)), dir, name@, 4097),
                decreases self.spc - s,
            {
                let blk: u64 = lba + s as u64;
                let mut b = zeroes(512);
                read_sector(dev, blk, &mut b)?;
                let ghost b0 = b@;
                let mut dirty = false;
                let mut done = false;
                let mut o: usize = 0;
                while o < 512
                    invariant_except_break
                        !done,
                        unlink_block(b0, name@, 0) == unlink_block(b@, name@, o as int),
                    invariant
                        b@.len() == 512,
                        o <= 512,
                        o % 32 == 0,
                        !dirty ==> b@ == b0,
                    ensures
                        unlink_block(b0, name@, 0) == (b@, done),
                        !dirty ==> b@ == b0,
                        b@.len() == 512,
                    decreases 512 - o,
                {
                    if b[o] == 0x00 {
                        assert(unlink_block(b@, name@, o as int) == (b@, true));
                        done = true;
                        break;
                    }
                    let ghost before = b@;
                    if b[o] != 0xE5 && b[o + 11] != 0x0F {
                        let head = slice_of(b.as_slice(), o, o + 11);
                        if bytes_eq(head.as_slice(), name.as_slice()) {
                            b.set(o, 0xE5);
                            dirty = true;
                        }
                    }
                    assert(unlink_block(before, name@, o as int) == unlink_block(b@, name@, o + 32));
                    o = o + 32;
                }
                assert(unlink_block(b0, name@, 0) == (b@, done));
                let ghost dpre = disk_of(dev);
                if dirty {
                    write_sector(dev, blk, b.as_slice())?;
                } else {
                    assert(disk_put(dpre, blk, b@) =~= dpre);
                }
                assert(disk_of(dev) == disk_put(dpre, blk, unlink_block(dpre(blk), name@, 0).0));
                assert(blk == (self.lba_of(c) + s) as u64);
                if done {
                    assert(self.unlink_blocks(dpre, c, s as int, name@) == (disk_of(dev), true));
                    assert(self.unlink_blocks(dc, c, 0, name@) == (disk_of(dev), true));
                    assert(4097 - guard >= 1);
                    assert(self.unlinked(dc, c, name@, (4097 - guard) as nat) == disk_of(dev));
                    return Ok(());
                }
                assert(self.unlink_blocks(dpre, c, s as int, name@) == self.unlink_blocks(disk_of(dev), c, s + 1, name@));
                s = s + 1;
            }
            let ghost was = c;
            let ghost dn = disk_of(dev);
            assert(self.unlink_blocks(dc, was, 0, name@) == (dn, false));
            c = self.fat_get(dev, c)?;
            assert(c == self.entry(dn, was));
            assert(self.unlinked(dc, was, name@, (4097 - guard) as nat) == if c >= 0x0FFF_FFF8 {
                dn
            } else {
                self.unlinked(dn, c, name@, (4096 - guard) as nat)
            });
            if c >= 0x0FFF_FFF8 {
                return Ok(());
            }
            guard = guard + 1;
            if guard > 4096 {
                return Ok(());
            }
        }
    }

    /// Writes `data` as the file `name` of the directory whose first cluster is `dir`: a file
    /// already there of that name is freed and its record deleted (a directory of that name
    /// is refused), then a chain of free clusters (one at least) takes the data padded with
    /// zeros and the directory gets an entry with its first cluster and size.
    #[verifier::spinoff_prover]
    #[verifier::rlimit(100)]
    pub fn write_file<D: BlockDevice>(&mut self, dev: &mut D, dir: u32, name: &[u8; 11], data: &[u8]) -> (r: Result<(), &'static str>)
        requires
            old(self).wf(),
            data@.len() <= u32::MAX - 0x1_0000,
        ensures
            final(self).wf(),
            old(self).same_geom(final(self)),
            r is Ok ==> exists|first: u32| #[trigger] has_record(disk_of(final(dev)), dir_record(name@, 0x20, first, data@.len() as u32)),
            old(self).dir_named_first(disk_of(old(dev)), dir, name@) ==> r is Err && disk_of(final(dev)) == disk_of(old(dev)),
            healthy(old(dev), 512) ==> healthy(final(dev), 512),
            healthy(old(dev), 512) && esp_ready(*old(self), disk_of(old(dev)), dir, name@, data@.len() as int) ==> r is Ok,
            healthy(old(dev), 512) && esp_ready(*old(self), disk_of(old(dev)), dir, name@, data@.len() as int)
                && old(self).max_cluster < 0x0FFF_FFF0 ==> exists|cs: Seq<u32>|
                #[trigger] esp_stores(*old(self), disk_of(final(dev)), cs, data@) && cs.len() == (if data@.len() == 0 {
                    1
                } else {
                    (data@.len() + old(self).spc * 512 - 1) / (old(self).spc * 512)
                }) && has_record(disk_of(final(dev)), dir_record(name@, 0x20, cs[0], data@.len() as u32)),
    {
        let ghost d0 = disk_of(dev);
        let ghost e0 = *self;
        let ghost good = healthy(old(dev), 512) && esp_ready(e0, d0, dir, name@, data@.len() as int);
        let ghost gd = good && e0.max_cluster < 0x0FFF_FFF0;
        assert(good ==> fat_covers_all(e0) && !e0.links(d0, dir, 4097) && e0.name_absent(d0, dir, name@) && e0.free_within(
            d0,
            dir,
            4097,
        ) && busy_chain(e0, d0, dir, 4097) && esp_free(e0, d0).len() >= (if data@.len() == 0 {
            1
        } else {
            (data@.len() + e0.spc * 512 - 1) / (e0.spc * 512)
        })) by {
            reveal(esp_ready);
        }
        let ghost dir_first = old(self).dir_named_first(disk_of(old(dev)), dir, name@);
        let found = self.find(dev, dir, name)?;
        proof {
            if dir_first {
                let (j, s, o) = choose|j: int, s: int, o: int| #[trigger] self.first_named_at(d0, dir, name@, j, s, o)
                    && rec_is_dir(self.rec_in(d0, dir, j, s, o));
                match found {
                    Some((c, sz, dd)) => {
                        let (j1, s1, o1) = choose|j1: int, s1: int, o1: int|
                            #[trigger] self.first_named_at(d0, dir, name@, j1, s1, o1)
                                && Self::found_record(self.rec_in(d0, dir, j1, s1, o1)) == (c as int, sz as int, dd);
                        self.lemma_first_named_unique(d0, dir, name@, j, s, o, j1, s1, o1);
                        assert(dd);
                    },
                    None => {
                        self.lemma_first_named_present(d0, dir, name@, j, s, o);
                    },
                }
            }
            if good {
                if found is Some {
                    let (j1, s1, o1) = choose|j1: int, s1: int, o1: int| #[trigger] self.first_named_at(d0, dir, name@, j1, s1, o1);
                    self.lemma_first_named_present(d0, dir, name@, j1, s1, o1);
                }
                lemma_kept_refl(e0, d0, dir, 4097);
            }
        }
        match found {
            Some((old_c, _, is_dir)) => {
                if is_dir {
                    return Err("ESP: ayni isimde klasor var");
                }
                if old_c >= 2 && old_c <= self.max_cluster {
                    self.free_chain(dev, old_c)?;
                }
                self.remove_entry(dev, dir, name)?;
            },
            None => {},
        }
        assert(!old(self).dir_named_first(disk_of(old(dev)), dir, name@));
        assert(self.spc * self.bps <= 128 * 512) by (nonlinear_arith)
            requires self.spc <= 128, self.bps == 512;
        let per: u32 = self.spc * self.bps;
        assert(per >= 512) by (nonlinear_arith)
            requires per == self.spc * self.bps, self.spc >= 1, self.bps == 512;
        let len: u32 = data.len() as u32;
        let n: u32 = if len == 0 { 1 } else { (len + per - 1) / per };
        proof {
            if good {
                assert(per == e0.spc * 512);
                assert(len > 0 ==> (len as int + per as int - 1) / (per as int) >= 1) by (nonlinear_arith)
                    requires
                        per >= 512,
                ;
                assert(esp_free(e0, disk_of(dev)).len() >= 1);
                lemma_esp_free(e0, disk_of(dev), disk_of(dev), 0);
                assert forall|l: u64| #[trigger] disk_of(dev)(l).len() == 512 by {
                    assert(dev.serves(l) && dev.sector(l).len() == 512);
                }
            }
        }
        let ghost da = disk_of(dev);
        let first = self.alloc_free(dev)?;
        proof {
            if good {
                lemma_geom_ops(e0, e0, da, first, EOC);
                lemma_esp_alloc(e0, d0, da, disk_of(dev), first, dir);
            }
        }
        let mut chain: Vec<u32> = Vec::new();
        chain.push(first);
        let mut cur = first;
        let mut k: u32 = 1;
        proof {
            if gd {
                assert(chain@ =~= seq![first]);
                assert(esp_linked(e0, disk_of(dev), chain@));
            }
        }
        while k < n
            invariant
                !old(self).dir_named_first(disk_of(old(dev)), dir, name@),
                self.wf(),
                old(self).same_geom(self),
                2 <= cur <= self.max_cluster,
                forall|j: int| 0 <= j < chain@.len() ==> 2 <= #[trigger] chain@[j] <= self.max_cluster,
                k <= n || n == 0,
                e0 == *old(self),
                d0 == disk_of(old(dev)),
                e0.wf(),
                good == (healthy(old(dev), 512) && esp_ready(e0, d0, dir, name@, data@.len() as int)),
                healthy(old(dev), 512) ==> healthy(dev, 512),
                good ==> kept_chain(e0, d0, disk_of(dev), dir, 4097) && busy_chain(e0, d0, dir, 4097) && fat_covers_all(e0),
                good ==> e0.entry(disk_of(dev), cur) != 0 && !in_chain(e0, d0, dir, 4097, cur),
                good ==> forall|j: int| 0 <= j < chain@.len() ==> !in_chain(e0, d0, dir, 4097, #[trigger] chain@[j]),
                good ==> esp_free(e0, disk_of(dev)).len() >= n - k,
                gd == (good && e0.max_cluster < 0x0FFF_FFF0),
                gd ==> chain@.len() == k && chain@[0] == first && chain@.last() == cur && esp_linked(e0, disk_of(dev), chain@),
            decreases n - k,
        {
            let ghost db = disk_of(dev);
            let ghost ek = *self;
            proof {
                if good {
                    lemma_esp_free(e0, db, db, 0);
                    let y = choose|y: u32| 2 <= y <= e0.max_cluster && #[trigger] e0.entry(db, y) == 0;
                    lemma_geom_ops(e0, ek, db, y, 0);
                    assert(ek.entry(db, y) == 0);
                    assert forall|l: u64| #[trigger] db(l).len() == 512 by {
                        assert(dev.serves(l) && dev.sector(l).len() == 512);
                    }
                }
            }
            let nx = self.alloc_free(dev)?;
            let ghost dc = disk_of(dev);
            proof {
                if good {
                    lemma_geom_ops(e0, ek, db, nx, EOC);
                    lemma_esp_alloc(e0, d0, db, dc, nx, dir);
                    assert(dev.serves(e0.fat_block(cur) as u64) && dev.sector(e0.fat_block(cur) as u64).len() == 512);
                }
            }
            let ghost ef = *self;
            self.fat_set(dev, cur, nx)?;
            proof {
                if good {
                    lemma_geom_ops(e0, ef, dc, cur, nx);
                    lemma_esp_link(e0, d0, dc, disk_of(dev), cur, nx, dir);
                }
                if gd {
                    lemma_chain_grow(e0, db, dc, disk_of(dev), chain@, nx);
                }
            }
            cur = nx;
            chain.push(nx);
            k = k + 1;
        }
        let mut off: usize = 0;
        let mut ci: usize = 0;
        let ghost spc = e0.spc as int;
        while ci < chain.len()
            invariant
                !old(self).dir_named_first(disk_of(old(dev)), dir, name@),
                self.wf(),
                old(self).same_geom(self),
                forall|j: int| 0 <= j < chain@.len() ==> 2 <= #[trigger] chain@[j] <= self.max_cluster,
                off <= data@.len(),
                ci <= chain@.len(),
                e0 == *old(self),
                d0 == disk_of(old(dev)),
                e0.wf(),
                good == (healthy(old(dev), 512) && esp_ready(e0, d0, dir, name@, data@.len() as int)),
                healthy(old(dev), 512) ==> healthy(dev, 512),
                good ==> kept_chain(e0, d0, disk_of(dev), dir, 4097) && fat_covers_all(e0),
                good ==> forall|j: int| 0 <= j < chain@.len() ==> !in_chain(e0, d0, dir, 4097, #[trigger] chain@[j]),
                spc == e0.spc,
                gd == (good && e0.max_cluster < 0x0FFF_FFF0),
                gd ==> chain@.len() == n && chain@[0] == first && esp_linked(e0, disk_of(dev), chain@),
                gd ==> off == (if ci * spc * 512 < data@.len() { ci * spc * 512 } else { data@.len() as int }),
                gd ==> forall|j: int, s2: int|
                    0 <= j < chain@.len() && 0 <= s2 < spc && j < ci ==> #[trigger] disk_of(dev)((e0.lba_of(chain@[j]) + s2) as u64)
                        == esp_piece(data@, j * spc + s2),
            decreases chain@.len() - ci,
        {
            let lba = self.cluster_lba(chain[ci]);
            let ghost x = chain@[ci as int];
            let mut s: u32 = 0;
            while s < self.spc
                invariant
                    !old(self).dir_named_first(disk_of(old(dev)), dir, name@),
                    self.wf(),
                    old(self).same_geom(self),
                    lba <= 0x100_0000_0000,
                    off <= data@.len(),
                    s <= self.spc,
                    e0 == *old(self),
                    d0 == disk_of(old(dev)),
                    e0.wf(),
                    lba == e0.lba_of(x),
                    2 <= x <= e0.max_cluster,
                    good == (healthy(old(dev), 512) && esp_ready(e0, d0, dir, name@, data@.len() as int)),
                    healthy(old(dev), 512) ==> healthy(dev, 512),
                    good ==> kept_chain(e0, d0, disk_of(dev), dir, 4097) && fat_covers_all(e0),
                    good ==> !in_chain(e0, d0, dir, 4097, x),
                    spc == e0.spc,
                    ci < chain@.len(),
                    x == chain@[ci as int],
                    gd == (good && e0.max_cluster < 0x0FFF_FFF0),
                    gd ==> chain@.len() == n && chain@[0] == first && esp_linked(e0, disk_of(dev), chain@),
                    gd ==> off == (if (ci * spc + s) * 512 < data@.len() { (ci * spc + s) * 512 } else { data@.len() as int }),
                    gd ==> forall|j: int, s2: int|
                        0 <= j < chain@.len() && 0 <= s2 < spc && (j < ci || (j == ci && s2 < s)) ==> #[trigger] disk_of(dev)(
                            (e0.lba_of(chain@[j]) + s2) as u64,
                        ) == esp_piece(data@, j * spc + s2),
                decreases self.spc - s,
            {
                let mut b = zeroes(512);
                let ghost off0 = off as int;
                let ghost end0: int = 0;
                if off < data.len() {
                    let end: usize = if data.len() - off > 512 { off + 512 } else { data.len() };
                    proof {
                        end0 = end as int;
                    }
                    let piece = slice_of(data, off, end);
                    put_bytes(&mut b, 0, piece.as_slice());
                    off = end;
                }
                let ghost dw = disk_of(dev);
                proof {
                    if gd {
                        lemma_piece_block(data@, off0, end0, ci * spc + s, b@);
                    }
                }
                write_sector(dev, lba + s as u64, b.as_slice())?;
                proof {
                    if good {
                        lemma_esp_block(e0, d0, dw, x, (lba + s) as u64, b@, dir);
                    }
                    if gd {
                        lemma_data_block(e0, dw, chain@, data@, ci as int, s as int, b@);
                        assert(off == (if (ci * spc + s + 1) * 512 < data@.len() { (ci * spc + s + 1) * 512 } else { data@.len() as int })) by (nonlinear_arith)
                            requires
                                off0 == (if (ci * spc + s) * 512 < data@.len() { (ci * spc + s) * 512 } else { data@.len() as int }),
                                off0 < data@.len() ==> off == end0 && end0 == (if data@.len() - off0 > 512 { off0 + 512 } else { data@.len() as int }),
                                off0 >= data@.len() ==> off == off0,
                        ;
                    }
                }
                s = s + 1;
            }
            proof {
                if gd {
                    assert((ci * spc + spc) * 512 == (ci + 1) * spc * 512) by (nonlinear_arith);
                }
            }
            ci = ci + 1;
        }
        proof {
            if good {
                lemma_fw_kept(e0, d0, disk_of(dev), dir, 4097);
                e0.lemma_free_within_geom(self, disk_of(dev), dir, 4097);
            }
        }
        let ghost dp = disk_of(dev);
        let ghost ea = *self;
        proof {
            if gd {
                assert(esp_stores(e0, dp, chain@, data@));
            }
        }
        self.add_entry(dev, dir, name, 0x20, first, len)?;
        assert(has_record(disk_of(dev), dir_record(name@, 0x20, first, data@.len() as u32)));
        proof {
            if gd {
                let (c, l, b) = choose|c: u32, l: u64, b: Seq<u8>|
                    #![trigger in_chain(ea, dp, dir, 4097, c), disk_put(dp, l, b)]
                    in_chain(ea, dp, dir, 4097, c) && ea.lba_of(c) <= l < ea.lba_of(c) + ea.spc && disk_of(dev) == disk_put(dp, l, b);
                lemma_in_chain_geom(e0, ea, dp, dir, 4097, c);
                lemma_stores_kept(e0, d0, dp, chain@, data@, dir, c, l, b);
                assert(esp_stores(e0, disk_of(dev), chain@, data@));
            }
        }
        Ok(())
    }

    /// Marks the free cluster count and the next free cluster of the FSInfo block unknown,
    /// when the boot sector places the block among the first eight and the block carries its
    /// signature; failures are ignored.
    pub fn invalidate_fsinfo<D: BlockDevice>(&self, dev: &mut D)
        requires
            self.wf(),
        ensures
            self.fsinfo_sec == 0 || self.fsinfo_sec > 8 ==> disk_of(final(dev)) == disk_of(old(dev)),
            forall|l: u64| l != self.fsinfo_sec ==> #[trigger] disk_of(final(dev))(l) == disk_of(old(dev))(l),
            healthy(old(dev), 512) ==> healthy(final(dev), 512),
            healthy(old(dev), 512) && 1 <= self.fsinfo_sec <= 8 ==> disk_of(final(dev)) == fsinfo_cleared(disk_of(old(dev)), self.fsinfo_sec),
    {
        if self.fsinfo_sec == 0 || self.fsinfo_sec > 8 {
            return;
        }
        let mut b = zeroes(512);
        if read_sector(dev, self.fsinfo_sec, &mut b).is_ok() {
            let sig: [u8; 4] = [0x52, 0x52, 0x61, 0x41];
            let head = slice_of(b.as_slice(), 0, 4);
            if bytes_eq(head.as_slice(), sig.as_slice()) {
                put_le32(&mut b, 488, 0xFFFF_FFFF);
                put_le32(&mut b, 492, 0xFFFF_FFFF);
                let _ = write_sector(dev, self.fsinfo_sec, b.as_slice());
            }
        }
    }
}

/// The block `b` with each live short-name record named `name` from offset `o` on, up to
/// the first end record, marked deleted; and whether an end record was met.
pub open spec fn unlink_block(b: Seq<u8>, name: Seq<u8>, o: int) -> (Seq<u8>, bool)
    decreases 512 - o,
{
    if o < 0 || o + 32 > 512 {
        (b, false)
    } else if b[o] == 0 {
        (b, true)
    } else {
        let b2 = if b[o] != 0xE5 && b[o + 11] != 0x0F && b.subrange(o, o + 11) == name {
            b.update(o, 0xE5)
        } else {
            b
        };
        unlink_block(b2, name, o + 32)
    }
}

/// `disk` with the FSInfo block at `l`, when it starts with its signature, made to say that
/// the free cluster count and the next free cluster are unknown (all ones at 488 and 492).
pub open spec fn fsinfo_cleared(disk: Disk, l: u64) -> Disk {
    let b = disk(l);
    if b.subrange(0, 4) == seq![0x52u8, 0x52, 0x61, 0x41] {
        disk_put(disk, l, splice(splice(b, 488, le32_bytes(0xFFFF_FFFF)), 492, le32_bytes(0xFFFF_FFFF)))
    } else {
        disk
    }
}

/// Installs the boot loader `boot` on the EFI system partition behind `dev`: as
/// `\EFI\RUSTY\BOOTX64.EFI` (directories made as needed), and as the fallback
/// `\EFI\BOOT\BOOTX64.EFI` when no such file is there yet (the `BOOT` directory made when
/// missing; a file named `BOOT` leaves the fallback out). Gives whether the fallback was
/// written. An empty boot loader, or a partition `Esp::open` refuses, is refused.
pub fn install_bootloader<D: BlockDevice>(dev: &mut D, boot: &[u8]) -> (r: Result<bool, &'static str>)
    requires
        boot@.len() <= u32::MAX - 0x1_0000,
    ensures
        boot@.len() == 0 ==> r == Err::<bool, &'static str>("ESP: bootloader bos") && disk_of(final(dev)) == disk_of(old(dev)),
        r is Ok ==> esp_of_boot(disk_of(old(dev))(0)) is Ok,
{
    if boot.len() == 0 {
        return Err("ESP: bootloader bos");
    }
    let mut e = Esp::open(dev)?;
    let root = e.root_cluster;
    let efi_name = sn("EFI".as_bytes());
    let rusty_name = sn("RUSTY".as_bytes());
    let boot_name = sn("BOOT".as_bytes());
    let file_name = sn3("BOOTX64".as_bytes(), "EFI".as_bytes());
    let efi = e.ensure_dir(dev, root, &efi_name)?;
    let rusty = e.ensure_dir(dev, efi, &rusty_name)?;
    e.write_file(dev, rusty, &file_name, boot)?;
    let mut fallback = false;
    match e.find(dev, efi, &boot_name)? {
        Some((c, _, true)) => {
            if e.find(dev, c, &file_name)?.is_none() {
                e.write_file(dev, c, &file_name, boot)?;
                fallback = true;
            }
        },
        Some((_, _, false)) => {},
        None => {
            let c = e.make_dir(dev, efi, &boot_name)?;
            e.write_file(dev, c, &file_name, boot)?;
            fallback = true;
        },
    }
    e.invalidate_fsinfo(dev);
    Ok(fallback)
}

} // verus!
