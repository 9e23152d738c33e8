use vstd::prelude::*;
use crate::block::{BlockDevice, Disk, disk_of, disk_put, healthy, read_sector, write_sector};
use crate::bytes::{le16, le32, get_le16, get_le32, zeroes, first_index, lemma_first_index, find_byte, copy_of, slice_of, splice, le32_bytes, le16_bytes, put_le32, put_le16, eq_ignore_case, bytes_eq_ignore_case};
use crate::registry::push_bytes;
use crate::fsops::{holds_run, run_body, fat_covers, lemma_run_fill, lemma_run_step, lemma_run_close, lemma_run_chain, lemma_run_data, lemma_chunk_cut};

verus! {

/// The geometry of a FAT32 volume, as its boot sector gives it.
pub struct Fat32 {
    pub bytes_per_sector: u32,
    pub sectors_per_cluster: u32,
    pub reserved_sectors: u32,
    pub num_fats: u32,
    pub fat_size_sectors: u32,
    pub root_cluster: u32,
    pub fat_start_lba: u64,
    pub data_start_lba: u64,
}

/// Whether a 512-byte boot sector describes a volume this driver can use: it ends in the
/// `55 AA` signature and gives nonzero sector and cluster sizes.
pub open spec fn boot_ok(b: Seq<u8>) -> bool {
    b[510] == 0x55 && b[511] == 0xAA && le16(b, 11) != 0 && b[13] != 0
}

/// The geometry a boot sector gives: sector size at 11, sectors per cluster at 13, reserved
/// sectors at 14, number of FATs at 16, sectors per FAT at 36, root cluster at 44. The FAT
/// starts after the reserved sectors and the data after the FATs (computed in 32 bits).
pub open spec fn boot_params(b: Seq<u8>) -> Fat32 {
    let reserved = le16(b, 14) as u32;
    let nf = b[16] as u32;
    let fs = le32(b, 36) as u32;
    Fat32 {
        bytes_per_sector: le16(b, 11) as u32,
        sectors_per_cluster: b[13] as u32,
        reserved_sectors: reserved,
        num_fats: nf,
        fat_size_sectors: fs,
        root_cluster: le32(b, 44) as u32,
        fat_start_lba: reserved as u64,
        data_start_lba: ((reserved as int + ((nf as int * fs as int) % 0x1_0000_0000))
            % 0x1_0000_0000) as u64,
    }
}

/// Whether cluster number `c` ends a chain (or is no cluster at all).
pub open spec fn is_chain_end(c: u32) -> bool {
    c < 2 || c >= 0x0FFF_FFF8
}

/// The longest cluster chain that is followed before it is taken for a loop.
pub open spec fn max_chain() -> nat {
    100_000
}

/// A four-byte entry at a multiple of four never crosses the end of a block whose size is a
/// multiple of four.
pub proof fn lemma_entry_fits(c: int, b: int)
    requires
        c >= 0,
        b > 0,
        b % 4 == 0,
    ensures
        (c * 4) % b + 4 <= b,
        (c * 4) % b >= 0,
        ((c * 4) % b) % 4 == 0,
{
    let k = b / 4;
    assert(b == 4 * k);
    vstd::arithmetic::div_mod::lemma_mod_mod(c * 4, 4, k);
    vstd::arithmetic::div_mod::lemma_mod_multiples_basic(c, 4);
    let o = (c * 4) % b;
    assert(o % 4 == 0);
    assert(0 <= o < b);
    vstd::arithmetic::div_mod::lemma_fundamental_div_mod(o, 4);
}

impl Fat32 {
    /// The geometry this driver works with: sizes as a boot sector can give them, with sector
    /// sizes a multiple of four so that FAT entries never straddle sectors.
    pub open spec fn wf(&self) -> bool {
        &&& 0 < self.bytes_per_sector <= 0xFFFF
        &&& self.bytes_per_sector % 4 == 0
        &&& 0 < self.sectors_per_cluster <= 0xFF
        &&& self.fat_start_lba <= u32::MAX
        &&& self.data_start_lba <= u32::MAX
    }

    /// First block of cluster `c`.
    pub open spec fn lba_of(&self, c: u32) -> int {
        self.data_start_lba + (c - 2) * self.sectors_per_cluster
    }

    /// Block of the FAT that holds the entry of cluster `c`.
    pub open spec fn fat_lba(&self, c: u32) -> u64 {
        (self.fat_start_lba + (c as int * 4) / (self.bytes_per_sector as int)) as u64
    }

    /// Offset of the entry of cluster `c` in its FAT block.
    pub open spec fn fat_off(&self, c: u32) -> int {
        (c as int * 4) % (self.bytes_per_sector as int)
    }

    /// The FAT entry of cluster `c` (its low 28 bits).
    pub open spec fn fat_entry(&self, disk: Disk, c: u32) -> u32 {
        (le32(disk(self.fat_lba(c)), self.fat_off(c)) % 0x1000_0000) as u32
    }

    /// The clusters of the chain that starts at `c`, following at most `fuel` links; `None`
    /// when the chain is longer than that.
    pub open spec fn chain(&self, disk: Disk, c: u32, fuel: nat) -> Option<Seq<u32>>
        decreases fuel,
    {
        if is_chain_end(c) {
            Some(Seq::empty())
        } else if fuel == 0 {
            None
        } else {
            match self.chain(disk, self.fat_entry(disk, c), (fuel - 1) as nat) {
                Some(s) => Some(seq![c] + s),
                None => None,
            }
        }
    }

    /// The bytes of `n` consecutive blocks from `lba` on.
    pub open spec fn blocks(disk: Disk, lba: int, n: nat) -> Seq<u8>
        decreases n,
    {
        if n == 0 {
            Seq::empty()
        } else {
            Self::blocks(disk, lba, (n - 1) as nat) + disk((lba + (n - 1)) as u64)
        }
    }

    /// The bytes of cluster `c`.
    pub open spec fn cluster_data(&self, disk: Disk, c: u32) -> Seq<u8> {
        Self::blocks(disk, self.lba_of(c), self.sectors_per_cluster as nat)
    }

    /// The bytes of the clusters `cs`, one after the other.
    pub open spec fn chain_data(&self, disk: Disk, cs: Seq<u32>) -> Seq<u8>
        decreases cs.len(),
    {
        if cs.len() == 0 {
            Seq::empty()
        } else {
            self.chain_data(disk, cs.drop_last()) + self.cluster_data(disk, cs.last())
        }
    }

    /// Reads the boot sector and returns the geometry it describes.
    pub fn new<D: BlockDevice>(dev: &mut D) -> (r: Result<Fat32, &'static str>)
        ensures
            disk_of(final(dev)) == disk_of(old(dev)),
            r is Ok ==> ({
                let b = disk_of(old(dev))(0);
                b.len() == 512 && boot_ok(b) && r == Ok::<Fat32, &'static str>(boot_params(b))
            }),
            disk_of(old(dev))(0).len() == 512 && !boot_ok(disk_of(old(dev))(0)) ==> r is Err,
            forall|n: int| healthy(old(dev), n) ==> #[trigger] healthy(final(dev), n),
            old(dev).serves(0) && disk_of(old(dev))(0).len() == 512 && boot_ok(disk_of(old(dev))(0)) ==> r is Ok,
    {
        let mut boot = zeroes(512);
        let rd = read_sector(dev, 0, &mut boot);
        match rd {
            Err(e) => Err(e),
            Ok(()) => Self::from_boot_sector(boot.as_slice()),
        }
    }

    /// The geometry that a boot sector describes.
    pub fn from_boot_sector(boot: &[u8]) -> (r: Result<Fat32, &'static str>)
        requires
            boot@.len() == 512,
        ensures
            r is Ok <==> boot_ok(boot@),
            r is Ok ==> r == Ok::<Fat32, &'static str>(boot_params(boot@)),
    {
        let bytes_per_sector = get_le16(boot, 11) as u32;
        let sectors_per_cluster = boot[13] as u32;
        let reserved_sectors = get_le16(boot, 14) as u32;
        let num_fats = boot[16] as u32;
        let fat_size_sectors = get_le32(boot, 36);
        let root_cluster = get_le32(boot, 44);
        if boot[510] != 0x55 || boot[511] != 0xAA {
            return Err("no FAT32 signature (boot sector is incorrect)");
        }
        if bytes_per_sector == 0 || sectors_per_cluster == 0 {
            return Err("Invalid FAT32 parameters");
        }
        let fat_start_lba = reserved_sectors as u64;
        let data_start_lba = reserved_sectors.wrapping_add(num_fats.wrapping_mul(fat_size_sectors))
            as u64;
        Ok(
            Fat32 {
                bytes_per_sector,
                sectors_per_cluster,
                reserved_sectors,
                num_fats,
                fat_size_sectors,
                root_cluster,
                fat_start_lba,
                data_start_lba,
            },
        )
    }

    /// First block of cluster `cluster`.
    pub(crate) fn cluster_to_lba(&self, cluster: u32) -> (r: u64)
        requires
            self.wf(),
            cluster >= 2,
        ensures
            r == self.lba_of(cluster),
            r <= 0x1_0000_0000 * 0x101,
    {
        assert((cluster as u64 - 2) * (self.sectors_per_cluster as u64) <= 0xFFFF_FFFF * 0xFF)
            by (nonlinear_arith)
            requires
                cluster <= 0xFFFF_FFFF,
                self.sectors_per_cluster <= 0xFF,
                cluster >= 2,
        ;
        self.data_start_lba + ((cluster as u64 - 2) * self.sectors_per_cluster as u64)
    }

    /// Reads the FAT entry of `cluster`.
    pub(crate) fn next_cluster<D: BlockDevice>(&self, dev: &mut D, cluster: u32) -> (r: Result<u32, &'static str>)
        requires
            self.wf(),
            cluster < 0x4000_0000,
        ensures
            disk_of(final(dev)) == disk_of(old(dev)),
            r is Ok ==> disk_of(old(dev))(self.fat_lba(cluster)).len() == self.bytes_per_sector
                && r == Ok::<u32, &'static str>(self.fat_entry(disk_of(old(dev)), cluster)),
            healthy(old(dev), self.bytes_per_sector as int) ==> healthy(final(dev), self.bytes_per_sector as int),
            healthy(old(dev), self.bytes_per_sector as int) ==> r is Ok,
    {
        let fat_offset = cluster * 4;
        let sector = self.fat_start_lba + (fat_offset / self.bytes_per_sector) as u64;
        let offset = (fat_offset % self.bytes_per_sector) as usize;
        proof {
            lemma_entry_fits(cluster as int, self.bytes_per_sector as int);
        }
        let mut buf = zeroes(self.bytes_per_sector as usize);
        read_sector(dev, sector, &mut buf)?;
        let raw = get_le32(buf.as_slice(), offset);
        let val = raw & 0x0FFF_FFFF;
        assert(val == raw % 0x1000_0000) by (bit_vector)
            requires
                val == raw & 0x0FFF_FFFF,
        ;
        Ok(val)
    }

    /// The clusters of the chain that starts at `start`.
    fn cluster_chain<D: BlockDevice>(&self, dev: &mut D, start: u32) -> (r: Result<Vec<u32>, &'static str>)
        requires
            self.wf(),
        ensures
            disk_of(final(dev)) == disk_of(old(dev)),
            r is Ok ==> self.chain(disk_of(old(dev)), start, max_chain()) == Some(r->Ok_0@),
            self.chain(disk_of(old(dev)), start, max_chain()) is None ==> r is Err,
            healthy(old(dev), self.bytes_per_sector as int) ==> healthy(final(dev), self.bytes_per_sector as int),
            healthy(old(dev), self.bytes_per_sector as int) && self.chain(disk_of(old(dev)), start, max_chain()) is Some ==> r is Ok,
    {
        let ghost disk = disk_of(dev);
        let mut chain: Vec<u32> = Vec::new();
        let mut current = start;
        let mut guard: u32 = 0;
        loop
            invariant
                self.wf(),
                disk_of(dev) == disk,
                disk == disk_of(old(dev)),
                healthy(old(dev), self.bytes_per_sector as int) ==> healthy(dev, self.bytes_per_sector as int),
                guard <= 100_000,
                self.chain(disk, start, max_chain()) == match self.chain(
                    disk,
                    current,
                    (max_chain() - guard) as nat,
                ) {
                    Some(s) => Some(chain@ + s),
                    None => None::<Seq<u32>>,
                },
            decreases 100_000 - guard,
        {
            if current < 2 || current >= 0x0FFF_FFF8 {
                assert(chain@ + Seq::<u32>::empty() =~= chain@);
                return Ok(chain);
            }
            chain.push(current);
            let ghost before = chain@.drop_last();
            current = self.next_cluster(dev, current)?;
            guard += 1;
            if guard > 100_000 {
                return Err("The cluster chain is very long (loop?)");
            }
            proof {
                let c0 = chain@.last();
                match self.chain(disk, current, (max_chain() - guard) as nat) {
                    Some(s) => {
                        assert(before + (seq![c0] + s) =~= chain@ + s);
                    },
                    None => {},
                }
            }
        }
    }

    /// The bytes of `n` blocks from `lba` on, each of `bytes_per_sector` bytes.
    fn read_blocks<D: BlockDevice>(&self, dev: &mut D, lba: u64, n: u32, out: &mut Vec<u8>) -> (r: Result<(), &'static str>)
        requires
            self.wf(),
            lba + n <= u64::MAX,
        ensures
            disk_of(final(dev)) == disk_of(old(dev)),
            r is Ok ==> final(out)@ == old(out)@ + Self::blocks(disk_of(old(dev)), lba as int, n as nat),
            r is Ok ==> forall|k: int| 0 <= k < n ==> #[trigger] disk_of(old(dev))((lba + k) as u64).len()
                == self.bytes_per_sector,
            healthy(old(dev), self.bytes_per_sector as int) ==> healthy(final(dev), self.bytes_per_sector as int),
            healthy(old(dev), self.bytes_per_sector as int) ==> r is Ok,
    {
        let ghost disk = disk_of(dev);
        let mut s: u32 = 0;
        while s < n
            invariant
                self.wf(),
                lba + n <= u64::MAX,
                s <= n,
                disk_of(dev) == disk,
                disk == disk_of(old(dev)),
                healthy(old(dev), self.bytes_per_sector as int) ==> healthy(dev, self.bytes_per_sector as int),
                out@ == old(out)@ + Self::blocks(disk, lba as int, s as nat),
                forall|k: int| 0 <= k < s ==> #[trigger] disk((lba + k) as u64).len() == self.bytes_per_sector,
            decreases n - s,
        {
            let mut sector_buf = zeroes(self.bytes_per_sector as usize);
            read_sector(dev, lba + s as u64, &mut sector_buf)?;
            push_bytes(out, sector_buf.as_slice());
            s = s + 1;
            assert(out@ =~= old(out)@ + Self::blocks(disk, lba as int, s as nat));
        }
        Ok(())
    }

    /// The bytes of cluster `cluster`.
    fn read_cluster<D: BlockDevice>(&self, dev: &mut D, cluster: u32) -> (r: Result<Vec<u8>, &'static str>)
        requires
            self.wf(),
            cluster >= 2,
        ensures
            disk_of(final(dev)) == disk_of(old(dev)),
            r is Ok ==> r->Ok_0@ == self.cluster_data(disk_of(old(dev)), cluster),
            r is Ok ==> r->Ok_0@.len() == self.sectors_per_cluster * self.bytes_per_sector,
            healthy(old(dev), self.bytes_per_sector as int) ==> healthy(final(dev), self.bytes_per_sector as int),
            healthy(old(dev), self.bytes_per_sector as int) ==> r is Ok,
    {
        let lba = self.cluster_to_lba(cluster);
        let mut data: Vec<u8> = Vec::new();
        self.read_blocks(dev, lba, self.sectors_per_cluster, &mut data)?;
        assert(data@ =~= self.cluster_data(disk_of(old(dev)), cluster));
        proof {
            Self::lemma_blocks_len(disk_of(old(dev)), lba as int, self.sectors_per_cluster as nat, self.bytes_per_sector as nat);
        }
        Ok(data)
    }

    proof fn lemma_blocks_len(disk: Disk, lba: int, n: nat, size: nat)
        requires
            forall|k: int| 0 <= k < n ==> #[trigger] disk((lba + k) as u64).len() == size,
        ensures
            Self::blocks(disk, lba, n).len() == n * size,
        decreases n,
    {
        if n > 0 {
            Self::lemma_blocks_len(disk, lba, (n - 1) as nat, size);
            assert(disk((lba + (n - 1)) as u64).len() == size);
            assert(Self::blocks(disk, lba, n) == Self::blocks(disk, lba, (n - 1) as nat) + disk(
                (lba + (n - 1)) as u64,
            ));
            assert(((n - 1) as nat) * size + size == n * size) by (nonlinear_arith)
                requires
                    n > 0,
            ;
        } else {
            assert(n * size == 0) by (nonlinear_arith)
                requires
                    n == 0,
            ;
        }
    }
}


/// A directory entry as the volume describes it.
pub struct DirEntry {
    pub name: Vec<u8>,
    pub is_dir: bool,
    pub size: u32,
    pub first_cluster: u32,
    pub parent_cluster: u32,
}

/// The content of a directory entry.
pub ghost struct DirInfo {
    pub name: Seq<u8>,
    pub is_dir: bool,
    pub size: u32,
    pub first_cluster: u32,
    pub parent_cluster: u32,
}

impl View for DirEntry {
    type V = DirInfo;

    open spec fn view(&self) -> DirInfo {
        DirInfo {
            name: self.name@,
            is_dir: self.is_dir,
            size: self.size,
            first_cluster: self.first_cluster,
            parent_cluster: self.parent_cluster,
        }
    }
}

/// UTF-8 encoding of the character whose code is the byte `b` (names on disk are read one
/// byte per character).
pub open spec fn latin1(b: u8) -> Seq<u8> {
    if b < 0x80 {
        seq![b]
    } else {
        seq![(0xC0 + b / 64) as u8, (0x80 + b % 64) as u8]
    }
}

/// UTF-8 text of the byte string `s`, one character per byte.
pub open spec fn latin1_text(s: Seq<u8>) -> Seq<u8>
    decreases s.len(),
{
    if s.len() == 0 {
        Seq::empty()
    } else {
        latin1_text(s.drop_last()) + latin1(s.last())
    }
}

/// Appends the character whose code is `b`, UTF-8 encoded.
pub fn push_latin1(out: &mut Vec<u8>, b: u8)
    ensures
        final(out)@ == old(out)@ + latin1(b),
{
    if b < 0x80 {
        out.push(b);
    } else {
        out.push(0xC0 + b / 64);
        out.push(0x80 + b % 64);
    }
    assert(final(out)@ =~= old(out)@ + latin1(b));
}

/// Length of the run before the first byte `c` in `s`, or the whole length.
pub open spec fn run_until(s: Seq<u8>, c: u8) -> int {
    match first_index(s, c) {
        Some(i) => i,
        None => s.len() as int,
    }
}

/// The 8.3 name of a directory record: the base up to the first space in bytes 0..8, then,
/// when the extension (up to the first space in bytes 8..11) is not empty, a dot and the
/// extension.
pub open spec fn short_name(rec: Seq<u8>) -> Seq<u8> {
    let base = rec.subrange(0, run_until(rec.subrange(0, 8), 32u8));
    let ext = rec.subrange(8, 8 + run_until(rec.subrange(8, 11), 32u8));
    if ext.len() > 0 {
        latin1_text(base) + seq![46u8] + latin1_text(ext)
    } else {
        latin1_text(base)
    }
}

/// Position in a long-name record of its `i`-th name character.
pub open spec fn lfn_pos(i: int) -> int {
    if i < 5 {
        1 + 2 * i
    } else if i < 11 {
        14 + 2 * (i - 5)
    } else {
        28 + 2 * (i - 11)
    }
}

/// The low bytes of the thirteen name characters of a long-name record.
pub open spec fn lfn_chars(rec: Seq<u8>) -> Seq<u8> {
    Seq::new(13, |i: int| rec[lfn_pos(i)])
}

/// Number of leading bytes of `s` before a 0 or 0xFF byte.
pub open spec fn lfn_stop(s: Seq<u8>) -> int
    decreases s.len(),
{
    if s.len() == 0 {
        0
    } else if s[0] == 0 || s[0] == 0xFF {
        0
    } else {
        1 + lfn_stop(s.drop_first())
    }
}

/// The part of a long name that one long-name record holds.
pub open spec fn lfn_part(rec: Seq<u8>) -> Seq<u8> {
    latin1_text(lfn_chars(rec).subrange(0, lfn_stop(lfn_chars(rec))))
}

/// The state of a directory scan: the entries found so far, the long name being assembled,
/// and whether the end-of-directory record was reached.
pub ghost struct DirScan {
    pub entries: Seq<DirInfo>,
    pub lfn: Seq<u8>,
    pub done: bool,
}

/// The scan state before any record.
pub open spec fn scan_start() -> DirScan {
    DirScan { entries: Seq::empty(), lfn: Seq::empty(), done: false }
}

/// The entry that a plain directory record describes, named `name`.
pub open spec fn record_entry(rec: Seq<u8>, name: Seq<u8>, parent: u32) -> DirInfo {
    DirInfo {
        name,
        is_dir: (rec[11] / 16) % 2 == 1,
        size: le32(rec, 28) as u32,
        first_cluster: (le16(rec, 20) * 0x1_0000 + le16(rec, 26)) as u32,
        parent_cluster: parent,
    }
}

/// What a directory record is: the end of the directory, a record that names nothing by
/// itself (deleted, long-name part, volume label), or an entry with its name.
pub ghost enum RecKind {
    End,
    Other,
    Entry(Seq<u8>),
}

/// The kind of the record `rec` when the long name assembled before it is `lfn`: a record
/// starting with 0 ends the directory, 0xE5 marks a deleted record, attribute 0x0F a long-name
/// record, attribute bit 0x08 a volume label; any other record is an entry, named by the long
/// name assembled before it or else by its 8.3 name.
pub open spec fn rec_kind(lfn: Seq<u8>, rec: Seq<u8>) -> RecKind {
    if rec[0] == 0 {
        RecKind::End
    } else if rec[0] == 0xE5 || rec[11] == 0x0F || (rec[11] / 8) % 2 == 1 {
        RecKind::Other
    } else if lfn.len() > 0 {
        RecKind::Entry(lfn)
    } else {
        RecKind::Entry(short_name(rec))
    }
}

/// The long name assembled after the record `rec`: a long-name record puts its part in front,
/// an end record keeps it, any other record clears it.
pub open spec fn rec_lfn(lfn: Seq<u8>, rec: Seq<u8>) -> Seq<u8> {
    if rec[0] == 0 {
        lfn
    } else if rec[0] != 0xE5 && rec[11] == 0x0F {
        lfn_part(rec) + lfn
    } else {
        Seq::empty()
    }
}

/// One step of a directory scan: once ended it stays so; otherwise the record ends it, adds
/// an entry, or only changes the long name being assembled.
pub open spec fn scan_step(st: DirScan, rec: Seq<u8>, parent: u32) -> DirScan {
    if st.done {
        st
    } else {
        match rec_kind(st.lfn, rec) {
            RecKind::End => DirScan { done: true, ..st },
            RecKind::Other => DirScan { lfn: rec_lfn(st.lfn, rec), ..st },
            RecKind::Entry(name) => DirScan {
                entries: st.entries.push(record_entry(rec, name, parent)),
                lfn: Seq::empty(),
                done: false,
            },
        }
    }
}

/// Record `k` (32 bytes) of `data`.
pub open spec fn record(data: Seq<u8>, k: int) -> Seq<u8> {
    data.subrange(32 * k, 32 * k + 32)
}

/// The scan state after the first `n` records of `data`.
pub open spec fn scan_data(st: DirScan, data: Seq<u8>, n: nat, parent: u32) -> DirScan
    decreases n,
{
    if n == 0 {
        st
    } else {
        scan_step(scan_data(st, data, (n - 1) as nat, parent), record(data, n - 1), parent)
    }
}

impl Fat32 {
    /// The scan state after all whole records of the clusters `cs`.
    pub open spec fn scan_clusters(&self, disk: Disk, cs: Seq<u32>, parent: u32) -> DirScan
        decreases cs.len(),
    {
        if cs.len() == 0 {
            scan_start()
        } else {
            let data = self.cluster_data(disk, cs.last());
            scan_data(self.scan_clusters(disk, cs.drop_last(), parent), data, data.len() / 32, parent)
        }
    }
}

/// `s` cut to `n` bytes when it is longer.
pub open spec fn truncated(s: Seq<u8>, n: int) -> Seq<u8> {
    if n < s.len() {
        s.subrange(0, n)
    } else {
        s
    }
}

/// The 8.3 name of the record at `rec[off..off + 32]`.
pub fn parse_short_name(rec: &[u8], off: usize) -> (r: Vec<u8>)
    requires
        off + 32 <= rec@.len(),
    ensures
        r@ == short_name(rec@.subrange(off as int, off + 32)),
{
    let ghost e = rec@.subrange(off as int, off + 32);
    let n = rec.len();
    let mut name: Vec<u8> = Vec::new();
    let mut i: usize = 0;
    while i < 8
        invariant
            n == rec@.len(),
            off + 32 <= rec@.len(),
            e == rec@.subrange(off as int, off + 32),
            i <= 8,
            forall|j: int| 0 <= j < i ==> e[j] != 32u8,
            name@ == latin1_text(e.subrange(0, i as int)),
        ensures
            i <= 8,
            forall|j: int| 0 <= j < i ==> e[j] != 32u8,
            i < 8 ==> e[i as int] == 32u8,
            name@ == latin1_text(e.subrange(0, i as int)),
        decreases 8 - i,
    {
        let c = rec[off + i];
        if c == 32 {
            break;
        }
        push_latin1(&mut name, c);
        i = i + 1;
        assert(e.subrange(0, i as int).drop_last() =~= e.subrange(0, i - 1));
    }
    proof {
        assert forall|j: int| 0 <= j < i implies e.subrange(0, 8)[j] != 32u8 by {
            assert(e.subrange(0, 8)[j] == e[j]);
        }
        lemma_first_index(e.subrange(0, 8), 32u8, i as int);
    }
    let mut ext: Vec<u8> = Vec::new();
    let mut k: usize = 8;
    while k < 11
        invariant
            n == rec@.len(),
            off + 32 <= rec@.len(),
            e == rec@.subrange(off as int, off + 32),
            8 <= k <= 11,
            forall|j: int| 8 <= j < k ==> e[j] != 32u8,
            ext@ == latin1_text(e.subrange(8, k as int)),
            ext@.len() == 0 <==> k == 8,
        ensures
            8 <= k <= 11,
            forall|j: int| 8 <= j < k ==> e[j] != 32u8,
            k < 11 ==> e[k as int] == 32u8,
            ext@ == latin1_text(e.subrange(8, k as int)),
            ext@.len() == 0 <==> k == 8,
        decreases 11 - k,
    {
        let c = rec[off + k];
        if c == 32 {
            break;
        }
        push_latin1(&mut ext, c);
        k = k + 1;
        assert(e.subrange(8, k as int).drop_last() =~= e.subrange(8, k - 1));
    }
    proof {
        assert forall|j: int| 0 <= j < k - 8 implies e.subrange(8, 11)[j] != 32u8 by {
            assert(e.subrange(8, 11)[j] == e[8 + j]);
        }
        lemma_first_index(e.subrange(8, 11), 32u8, k - 8);
    }
    if ext.len() > 0 {
        name.push(46u8);
        push_bytes(&mut name, ext.as_slice());
    }
    assert(name@ =~= short_name(e));
    name
}


proof fn lemma_lfn_stop(s: Seq<u8>, i: int)
    requires
        0 <= i <= s.len(),
        forall|j: int| 0 <= j < i ==> s[j] != 0 && s[j] != 0xFF,
        i < s.len() ==> (s[i] == 0 || s[i] == 0xFF),
    ensures
        lfn_stop(s) == i,
    decreases s.len(),
{
    if s.len() > 0 && i > 0 {
        assert forall|j: int| 0 <= j < i - 1 implies s.drop_first()[j] != 0 && s.drop_first()[j] != 0xFF by {
            assert(s.drop_first()[j] == s[j + 1]);
        }
        lemma_lfn_stop(s.drop_first(), i - 1);
    }
}

fn lfn_position(i: usize) -> (r: usize)
    requires
        i < 13,
    ensures
        r == lfn_pos(i as int),
        r < 32,
{
    if i < 5 {
        1 + 2 * i
    } else if i < 11 {
        14 + 2 * (i - 5)
    } else {
        28 + 2 * (i - 11)
    }
}

/// The part of a long name held by the long-name record at `rec[off..off + 32]`.
fn lfn_part_of(rec: &[u8], off: usize) -> (r: Vec<u8>)
    requires
        off + 32 <= rec@.len(),
    ensures
        r@ == lfn_part(rec@.subrange(off as int, off + 32)),
{
    let ghost e = rec@.subrange(off as int, off + 32);
    let ghost chars = lfn_chars(e);
    let n = rec.len();
    let mut part: Vec<u8> = Vec::new();
    let mut i: usize = 0;
    while i < 13
        invariant
            n == rec@.len(),
            off + 32 <= rec@.len(),
            e == rec@.subrange(off as int, off + 32),
            chars == lfn_chars(e),
            i <= 13,
            forall|j: int| 0 <= j < i ==> chars[j] != 0 && chars[j] != 0xFF,
            part@ == latin1_text(chars.subrange(0, i as int)),
        ensures
            i <= 13,
            forall|j: int| 0 <= j < i ==> chars[j] != 0 && chars[j] != 0xFF,
            i < 13 ==> (chars[i as int] == 0 || chars[i as int] == 0xFF),
            part@ == latin1_text(chars.subrange(0, i as int)),
        decreases 13 - i,
    {
        let p = lfn_position(i);
        let ch = rec[off + p];
        assert(ch == chars[i as int]);
        if ch == 0 || ch == 0xFF {
            break;
        }
        push_latin1(&mut part, ch);
        i = i + 1;
        assert(chars.subrange(0, i as int).drop_last() =~= chars.subrange(0, i - 1));
    }
    proof {
        lemma_lfn_stop(chars, i as int);
    }
    part
}

/// What a directory record is, in executable form.
pub enum RecordKind {
    End,
    Other,
    Entry(Vec<u8>),
}

impl View for RecordKind {
    type V = RecKind;

    open spec fn view(&self) -> RecKind {
        match self {
            RecordKind::End => RecKind::End,
            RecordKind::Other => RecKind::Other,
            RecordKind::Entry(n) => RecKind::Entry(n@),
        }
    }
}

/// Classifies the record `data[off..off + 32]` given the long name `lfn` assembled before it,
/// and updates `lfn`.
fn record_kind(lfn: &mut Vec<u8>, data: &[u8], off: usize) -> (r: RecordKind)
    requires
        off + 32 <= data@.len(),
    ensures
        r@ == rec_kind(old(lfn)@, data@.subrange(off as int, off + 32)),
        final(lfn)@ == rec_lfn(old(lfn)@, data@.subrange(off as int, off + 32)),
{
    let ghost rec = data@.subrange(off as int, off + 32);
    let first_byte = data[off];
    assert(first_byte == rec[0]);
    if first_byte == 0x00 {
        return RecordKind::End;
    }
    if first_byte == 0xE5 {
        lfn.clear();
        return RecordKind::Other;
    }
    let attr = data[off + 11];
    assert(attr == rec[11]);
    if attr == 0x0F {
        let mut part = lfn_part_of(data, off);
        push_bytes(&mut part, lfn.as_slice());
        *lfn = part;
        return RecordKind::Other;
    }
    let label = attr & 0x08 != 0;
    assert(label == ((attr / 8) % 2 == 1)) by (bit_vector)
        requires
            label == (attr & 0x08 != 0),
    ;
    if label {
        lfn.clear();
        return RecordKind::Other;
    }
    let name = if lfn.len() > 0 {
        copy_of(lfn.as_slice())
    } else {
        parse_short_name(data, off)
    };
    lfn.clear();
    assert(lfn@ =~= Seq::<u8>::empty());
    RecordKind::Entry(name)
}

/// The entry that the plain record `data[off..off + 32]` describes, named `name`.
fn entry_of(data: &[u8], off: usize, name: Vec<u8>, parent: u32) -> (r: DirEntry)
    requires
        off + 32 <= data@.len(),
    ensures
        r@ == record_entry(data@.subrange(off as int, off + 32), name@, parent),
{
    let ghost rec = data@.subrange(off as int, off + 32);
    let _n = data.len();
    let attr = data[off + 11];
    let is_dir = (attr & 0x10) != 0;
    assert(is_dir == ((attr / 16) % 2 == 1)) by (bit_vector)
        requires
            is_dir == ((attr & 0x10) != 0),
    ;
    let size = get_le32(data, off + 28);
    let cluster_hi = get_le16(data, off + 20) as u32;
    let cluster_lo = get_le16(data, off + 26) as u32;
    let first_cluster = (cluster_hi << 16u32) | cluster_lo;
    assert(first_cluster == cluster_hi * 0x1_0000 + cluster_lo) by (bit_vector)
        requires
            first_cluster == (cluster_hi << 16u32) | cluster_lo,
            cluster_hi < 0x1_0000,
            cluster_lo < 0x1_0000,
    ;
    proof {
        assert(rec[11] == attr);
        assert(le32(rec, 28) == le32(data@, off + 28));
        assert(le16(rec, 20) == le16(data@, off + 20));
        assert(le16(rec, 26) == le16(data@, off + 26));
    }
    DirEntry { name, is_dir, size, first_cluster, parent_cluster: parent }
}

/// Applies one directory record, `data[off..off + 32]`, to the scan state held in `entries`
/// and `lfn`; returns whether it ended the directory.
fn scan_record(entries: &mut Vec<DirEntry>, lfn: &mut Vec<u8>, data: &[u8], off: usize, parent: u32) -> (done: bool)
    requires
        off + 32 <= data@.len(),
    ensures
        ({
            let st = DirScan {
                entries: old(entries)@.map_values(|e: DirEntry| e@),
                lfn: old(lfn)@,
                done: false,
            };
            let st2 = scan_step(st, data@.subrange(off as int, off + 32), parent);
            &&& final(entries)@.map_values(|e: DirEntry| e@) == st2.entries
            &&& final(lfn)@ == st2.lfn
            &&& done == st2.done
        }),
{
    let ghost rec = data@.subrange(off as int, off + 32);
    match record_kind(lfn, data, off) {
        RecordKind::End => true,
        RecordKind::Other => false,
        RecordKind::Entry(name) => {
            let ghost before = entries@.map_values(|e: DirEntry| e@);
            let ghost nm = name@;
            entries.push(entry_of(data, off, name, parent));
            assert(entries@.map_values(|e: DirEntry| e@) =~= before.push(record_entry(rec, nm, parent)));
            false
        },
    }
}

proof fn lemma_scan_data_done(st: DirScan, data: Seq<u8>, n: nat, parent: u32)
    requires
        st.done,
    ensures
        scan_data(st, data, n, parent) == st,
    decreases n,
{
    if n > 0 {
        lemma_scan_data_done(st, data, (n - 1) as nat, parent);
    }
}

impl Fat32 {
    proof fn lemma_scan_clusters_done(&self, disk: Disk, cs: Seq<u32>, i: int, parent: u32)
        requires
            0 <= i <= cs.len(),
            self.scan_clusters(disk, cs.subrange(0, i), parent).done,
        ensures
            self.scan_clusters(disk, cs, parent) == self.scan_clusters(disk, cs.subrange(0, i), parent),
        decreases cs.len() - i,
    {
        if i == cs.len() {
            assert(cs.subrange(0, i) =~= cs);
        } else {
            let st = self.scan_clusters(disk, cs.subrange(0, i), parent);
            let pre = cs.subrange(0, i + 1);
            assert(pre.drop_last() =~= cs.subrange(0, i));
            let data = self.cluster_data(disk, pre.last());
            lemma_scan_data_done(st, data, data.len() / 32, parent);
            self.lemma_scan_clusters_done(disk, cs, i + 1, parent);
        }
    }

    /// The entries of the directory whose first cluster is `dir_cluster`, in the order they are
    /// stored, up to the end-of-directory record.
    pub fn list_dir<D: BlockDevice>(&self, dev: &mut D, dir_cluster: u32) -> (r: Result<Vec<DirEntry>, &'static str>)
        requires
            self.wf(),
        ensures
            disk_of(final(dev)) == disk_of(old(dev)),
            r is Ok ==> match self.chain(disk_of(old(dev)), dir_cluster, max_chain()) {
                Some(cs) => r->Ok_0@.map_values(|e: DirEntry| e@) == self.scan_clusters(
                    disk_of(old(dev)),
                    cs,
                    dir_cluster,
                ).entries,
                None => false,
            },
            healthy(old(dev), self.bytes_per_sector as int) ==> healthy(final(dev), self.bytes_per_sector as int),
            healthy(old(dev), self.bytes_per_sector as int) && self.chain(disk_of(old(dev)), dir_cluster, max_chain()) is Some ==> r is Ok,
    {
        let ghost disk = disk_of(dev);
        let mut entries: Vec<DirEntry> = Vec::new();
        let chain = self.cluster_chain(dev, dir_cluster)?;
        let ghost cs = chain@;
        let mut lfn: Vec<u8> = Vec::new();
        let mut ci: usize = 0;
        assert(cs.subrange(0, 0) =~= Seq::<u32>::empty());
        assert(entries@.map_values(|e: DirEntry| e@) =~= Seq::<DirInfo>::empty());
        while ci < chain.len()
            invariant
                self.wf(),
                disk_of(dev) == disk,
                disk == disk_of(old(dev)),
                healthy(old(dev), self.bytes_per_sector as int) ==> healthy(dev, self.bytes_per_sector as int),
                cs == chain@,
                self.chain(disk, dir_cluster, max_chain()) == Some(cs),
                ci <= cs.len(),
                ({
                    let st = self.scan_clusters(disk, cs.subrange(0, ci as int), dir_cluster);
                    &&& !st.done
                    &&& entries@.map_values(|e: DirEntry| e@) == st.entries
                    &&& lfn@ == st.lfn
                }),
            decreases cs.len() - ci,
        {
            let cluster = chain[ci];
            proof {
                self.lemma_chain_members(disk, dir_cluster, max_chain(), ci as int);
            }
            let data = self.read_cluster(dev, cluster)?;
            let ghost base = self.scan_clusters(disk, cs.subrange(0, ci as int), dir_cluster);
            let dlen = data.len();
            let mut k: usize = 0;
            while k < dlen && dlen - k >= 32
                invariant
                    self.wf(),
                    disk_of(dev) == disk,
                    disk == disk_of(old(dev)),
                    healthy(old(dev), self.bytes_per_sector as int) ==> healthy(dev, self.bytes_per_sector as int),
                    cs == chain@,
                    self.chain(disk, dir_cluster, max_chain()) == Some(cs),
                    ci < cs.len(),
                    cluster == cs[ci as int],
                    base == self.scan_clusters(disk, cs.subrange(0, ci as int), dir_cluster),
                    data@ == self.cluster_data(disk, cluster),
                    dlen == data@.len(),
                    k % 32 == 0,
                    k <= dlen,
                    ({
                        let st = scan_data(base, data@, (k / 32) as nat, dir_cluster);
                        &&& !st.done
                        &&& entries@.map_values(|e: DirEntry| e@) == st.entries
                        &&& lfn@ == st.lfn
                    }),
                decreases dlen - k,
            {
                let done = scan_record(&mut entries, &mut lfn, data.as_slice(), k, dir_cluster);
                assert(data@.subrange(k as int, k + 32) == record(data@, (k / 32) as int));
                assert(((k + 32) / 32) as nat == (k / 32) as nat + 1);
                if done {
                    proof {
                        let st = scan_data(base, data@, ((k + 32) / 32) as nat, dir_cluster);
                        lemma_scan_data_done(st, data@, (dlen / 32 - (k + 32) / 32) as nat, dir_cluster);
                        self.lemma_scan_data_split(base, data@, ((k + 32) / 32) as nat, (dlen / 32) as nat, dir_cluster);
                        let pre = cs.subrange(0, ci + 1);
                        assert(pre.drop_last() =~= cs.subrange(0, ci as int));
                        assert(pre.last() == cluster);
                        self.lemma_scan_clusters_done(disk, cs, ci + 1, dir_cluster);
                    }
                    return Ok(entries);
                }
                k = k + 32;
            }
            proof {
                assert(k / 32 == dlen / 32) by {
                    assert(k % 32 == 0);
                    assert(k > dlen - 32);
                }
                let pre = cs.subrange(0, ci + 1);
                assert(pre.drop_last() =~= cs.subrange(0, ci as int));
                assert(pre.last() == cluster);
            }
            ci = ci + 1;
        }
        assert(cs.subrange(0, cs.len() as int) =~= cs);
        Ok(entries)
    }

    proof fn lemma_scan_data_split(&self, st: DirScan, data: Seq<u8>, m: nat, n: nat, parent: u32)
        requires
            m <= n,
            scan_data(st, data, m, parent).done,
        ensures
            scan_data(st, data, n, parent) == scan_data(st, data, m, parent),
        decreases n - m,
    {
        if n > m {
            self.lemma_scan_data_split(st, data, m, (n - 1) as nat, parent);
        }
    }

    /// Every cluster of a chain is a cluster number (not an end mark).
    proof fn lemma_chain_members(&self, disk: Disk, c: u32, fuel: nat, i: int)
        requires
            self.chain(disk, c, fuel) is Some,
            0 <= i < self.chain(disk, c, fuel)->Some_0.len(),
        ensures
            !is_chain_end(self.chain(disk, c, fuel)->Some_0[i]),
        decreases fuel,
    {
        if !is_chain_end(c) && fuel > 0 {
            let rest = self.chain(disk, self.fat_entry(disk, c), (fuel - 1) as nat);
            if i > 0 {
                self.lemma_chain_members(disk, self.fat_entry(disk, c), (fuel - 1) as nat, i - 1);
            }
        }
    }

    /// The entries of the root directory.
    pub fn list_root<D: BlockDevice>(&self, dev: &mut D) -> (r: Result<Vec<DirEntry>, &'static str>)
        requires
            self.wf(),
        ensures
            disk_of(final(dev)) == disk_of(old(dev)),
            r is Ok ==> match self.chain(disk_of(old(dev)), self.root_cluster, max_chain()) {
                Some(cs) => r->Ok_0@.map_values(|e: DirEntry| e@) == self.scan_clusters(
                    disk_of(old(dev)),
                    cs,
                    self.root_cluster,
                ).entries,
                None => false,
            },
            healthy(old(dev), self.bytes_per_sector as int) ==> healthy(final(dev), self.bytes_per_sector as int),
            healthy(old(dev), self.bytes_per_sector as int) && self.chain(disk_of(old(dev)), self.root_cluster, max_chain()) is Some ==> r is Ok,
    {
        self.list_dir(dev, self.root_cluster)
    }

    /// The content of a file: the bytes of its cluster chain, cut to its size.
    pub fn read_file<D: BlockDevice>(&self, dev: &mut D, entry: &DirEntry) -> (r: Result<Vec<u8>, &'static str>)
        requires
            self.wf(),
        ensures
            disk_of(final(dev)) == disk_of(old(dev)),
            entry.is_dir ==> r is Err,
            r is Ok ==> match self.chain(disk_of(old(dev)), entry.first_cluster, max_chain()) {
                Some(cs) => r->Ok_0@ == truncated(
                    self.chain_data(disk_of(old(dev)), cs),
                    entry.size as int,
                ),
                None => false,
            },
            healthy(old(dev), self.bytes_per_sector as int) ==> healthy(final(dev), self.bytes_per_sector as int),
            healthy(old(dev), self.bytes_per_sector as int) && !entry.is_dir && self.chain(disk_of(old(dev)), entry.first_cluster, max_chain()) is Some ==> r is Ok,
    {
        if entry.is_dir {
            return Err("bu bir dizin, dosya degil");
        }
        let ghost disk = disk_of(dev);
        let chain = self.cluster_chain(dev, entry.first_cluster)?;
        let ghost cs = chain@;
        let mut data: Vec<u8> = Vec::new();
        let mut ci: usize = 0;
        assert(cs.subrange(0, 0) =~= Seq::<u32>::empty());
        while ci < chain.len()
            invariant
                self.wf(),
                disk_of(dev) == disk,
                disk == disk_of(old(dev)),
                healthy(old(dev), self.bytes_per_sector as int) ==> healthy(dev, self.bytes_per_sector as int),
                cs == chain@,
                self.chain(disk, entry.first_cluster, max_chain()) == Some(cs),
                ci <= cs.len(),
                data@ == self.chain_data(disk, cs.subrange(0, ci as int)),
            decreases cs.len() - ci,
        {
            let cluster = chain[ci];
            proof {
                self.lemma_chain_members(disk, entry.first_cluster, max_chain(), ci as int);
            }
            let cluster_data = self.read_cluster(dev, cluster)?;
            push_bytes(&mut data, cluster_data.as_slice());
            proof {
                let pre = cs.subrange(0, ci + 1);
                assert(pre.drop_last() =~= cs.subrange(0, ci as int));
                assert(pre.last() == cluster);
            }
            ci = ci + 1;
        }
        assert(cs.subrange(0, cs.len() as int) =~= cs);
        data.truncate(entry.size as usize);
        Ok(data)
    }
}


/// `disk` with `n` blocks from `lba` on replaced by consecutive `size`-byte pieces of `data`.
pub open spec fn put_blocks(disk: Disk, lba: int, data: Seq<u8>, size: nat, n: nat) -> Disk
    decreases n,
{
    if n == 0 {
        disk
    } else {
        disk_put(
            put_blocks(disk, lba, data, size, (n - 1) as nat),
            (lba + (n - 1)) as u64,
            data.subrange((n - 1) * size, (n * size) as int),
        )
    }
}

/// The record `k` of `data` with the size and first cluster fields set.
pub open spec fn patch_record(data: Seq<u8>, k: int, size: u32, cluster: u32) -> Seq<u8> {
    let d1 = splice(data, 32 * k + 28, le32_bytes(size));
    let d2 = splice(d1, 32 * k + 20, le16_bytes((cluster / 0x1_0000) as u16));
    splice(d2, 32 * k + 26, le16_bytes((cluster % 0x1_0000) as u16))
}

impl Fat32 {
    /// Bytes in one cluster.
    pub open spec fn cluster_bytes(&self) -> nat {
        (self.sectors_per_cluster * self.bytes_per_sector) as nat
    }

    /// `disk` with cluster `c` holding `data`.
    pub open spec fn cluster_put(&self, disk: Disk, c: u32, data: Seq<u8>) -> Disk {
        put_blocks(disk, self.lba_of(c), data, self.bytes_per_sector as nat, self.sectors_per_cluster as nat)
    }

    /// `disk` with the FAT entry of cluster `c` set to `v`: the low 28 bits change, the top
    /// four are kept; the block is written to the first FAT and, when there are more FATs,
    /// to the block one FAT size further on.
    pub open spec fn fat_put(&self, disk: Disk, c: u32, v: u32) -> Disk {
        let s = self.fat_lba(c);
        let blk = disk(s);
        let old = le32(blk, self.fat_off(c));
        let newv = (old / 0x1000_0000) * 0x1000_0000 + v % 0x1000_0000;
        let buf = splice(blk, self.fat_off(c), le32_bytes(newv as u32));
        let d1 = disk_put(disk, s, buf);
        if self.num_fats > 1 {
            disk_put(d1, (s + self.fat_size_sectors) as u64, buf)
        } else {
            d1
        }
    }

    /// Number of FAT entries the FAT holds (computed in 32 bits).
    pub open spec fn fat_entries(&self) -> int {
        ((self.fat_size_sectors as int * self.bytes_per_sector as int) % 0x1_0000_0000) / 4
    }

    /// Writes `data`, which must be exactly one cluster long, to cluster `cluster`.
    fn write_cluster<D: BlockDevice>(&self, dev: &mut D, cluster: u32, data: &[u8]) -> (r: Result<(), &'static str>)
        requires
            self.wf(),
            cluster >= 2,
        ensures
            data@.len() != self.cluster_bytes() ==> r is Err && disk_of(final(dev)) == disk_of(old(dev)),
            r is Ok ==> data@.len() == self.cluster_bytes() && disk_of(final(dev)) == self.cluster_put(
                disk_of(old(dev)),
                cluster,
                data@,
            ),
            healthy(old(dev), self.bytes_per_sector as int) ==> healthy(final(dev), self.bytes_per_sector as int),
            healthy(old(dev), self.bytes_per_sector as int) && data@.len() == self.cluster_bytes() ==> r is Ok,
    {
        let lba = self.cluster_to_lba(cluster);
        assert(self.sectors_per_cluster * self.bytes_per_sector <= 0xFF * 0xFFFF) by (nonlinear_arith)
            requires
                self.sectors_per_cluster <= 0xFF,
                self.bytes_per_sector <= 0xFFFF,
        ;
        let cluster_bytes = (self.sectors_per_cluster * self.bytes_per_sector) as usize;
        if data.len() != cluster_bytes {
            return Err("The data to be written is not the full size of a cluster.");
        }
        let bps = self.bytes_per_sector as usize;
        let mut s: u32 = 0;
        while s < self.sectors_per_cluster
            invariant
                self.wf(),
                healthy(old(dev), self.bytes_per_sector as int) ==> healthy(dev, self.bytes_per_sector as int),
                lba == self.lba_of(cluster),
                lba <= 0x1_0000_0000 * 0x101,
                bps == self.bytes_per_sector,
                data@.len() == self.sectors_per_cluster * self.bytes_per_sector,
                s <= self.sectors_per_cluster,
                disk_of(dev) == put_blocks(disk_of(old(dev)), lba as int, data@, bps as nat, s as nat),
            decreases self.sectors_per_cluster - s,
        {
            assert((s as int) * (bps as int) + (bps as int) <= (self.sectors_per_cluster as int) * (bps as int))
                by (nonlinear_arith)
                requires
                    s < self.sectors_per_cluster,
            ;
            assert((self.sectors_per_cluster as int) * (bps as int) <= 0xFF * 0xFFFF) by (nonlinear_arith)
                requires
                    self.sectors_per_cluster <= 0xFF,
                    bps <= 0xFFFF,
            ;
            let start = s as usize * bps;
            let end = start + bps;
            let piece = slice_of(data, start, end);
            write_sector(dev, lba + s as u64, piece.as_slice())?;
            assert((s + 1) as int * bps as int == start + bps) by (nonlinear_arith)
                requires
                    start == s as int * bps as int,
            ;
            s = s + 1;
        }
        Ok(())
    }

    /// Sets the FAT entry of `cluster` to `next_val` (its low 28 bits), keeping the top four
    /// bits of the entry, in the first FAT and its copy.
    pub(crate) fn set_fat_entry<D: BlockDevice>(&self, dev: &mut D, cluster: u32, next_val: u32) -> (r: Result<(), &'static str>)
        requires
            self.wf(),
            cluster < 0x4000_0000,
            self.fat_size_sectors <= u32::MAX,
        ensures
            r is Ok ==> disk_of(old(dev))(self.fat_lba(cluster)).len() == self.bytes_per_sector
                && disk_of(final(dev)) == self.fat_put(disk_of(old(dev)), cluster, next_val),
            healthy(old(dev), self.bytes_per_sector as int) ==> healthy(final(dev), self.bytes_per_sector as int),
            healthy(old(dev), self.bytes_per_sector as int) ==> r is Ok,
    {
        let fat_offset = cluster * 4;
        let sector = self.fat_start_lba + (fat_offset / self.bytes_per_sector) as u64;
        let offset = (fat_offset % self.bytes_per_sector) as usize;
        proof {
            lemma_entry_fits(cluster as int, self.bytes_per_sector as int);
        }
        let mut buf = zeroes(self.bytes_per_sector as usize);
        read_sector(dev, sector, &mut buf)?;
        let old = get_le32(buf.as_slice(), offset);
        let newv = (old & 0xF000_0000) | (next_val & 0x0FFF_FFFF);
        assert(newv == (old / 0x1000_0000) * 0x1000_0000 + next_val % 0x1000_0000) by (bit_vector)
            requires
                newv == (old & 0xF000_0000) | (next_val & 0x0FFF_FFFF),
        ;
        put_le32(&mut buf, offset, newv);
        write_sector(dev, sector, buf.as_slice())?;
        if self.num_fats > 1 {
            let backup_sector = sector + self.fat_size_sectors as u64;
            write_sector(dev, backup_sector, buf.as_slice())?;
        }
        Ok(())
    }

    /// `disk` with every block of cluster `c` zeroed.
    pub open spec fn cluster_zeroed(&self, disk: Disk, c: u32) -> Disk {
        put_blocks(
            disk,
            self.lba_of(c),
            Seq::new(self.cluster_bytes(), |i: int| 0u8),
            self.bytes_per_sector as nat,
            self.sectors_per_cluster as nat,
        )
    }

    /// Marks cluster `cluster` as the end of a chain and zeroes its blocks.
    pub(crate) fn claim_cluster<D: BlockDevice>(&self, dev: &mut D, cluster: u32) -> (r: Result<(), &'static str>)
        requires
            self.wf(),
            2 <= cluster < 0x4000_0000,
        ensures
            r is Ok ==> disk_of(final(dev)) == self.cluster_zeroed(
                self.fat_put(disk_of(old(dev)), cluster, 0x0FFF_FFFF),
                cluster,
            ),
            r is Ok ==> disk_of(old(dev))(self.fat_lba(cluster)).len() == self.bytes_per_sector,
            healthy(old(dev), self.bytes_per_sector as int) ==> healthy(final(dev), self.bytes_per_sector as int),
            healthy(old(dev), self.bytes_per_sector as int) ==> r is Ok,
    {
        self.set_fat_entry(dev, cluster, 0x0FFF_FFFF)?;
        self.zero_cluster(dev, cluster)
    }

    /// Zeroes every block of cluster `cluster`.
    pub(crate) fn zero_cluster<D: BlockDevice>(&self, dev: &mut D, cluster: u32) -> (r: Result<(), &'static str>)
        requires
            self.wf(),
            2 <= cluster,
        ensures
            r is Ok ==> disk_of(final(dev)) == self.cluster_zeroed(disk_of(old(dev)), cluster),
            healthy(old(dev), self.bytes_per_sector as int) ==> healthy(final(dev), self.bytes_per_sector as int),
            healthy(old(dev), self.bytes_per_sector as int) ==> r is Ok,
    {
        let ghost after_fat = disk_of(dev);
        let zero = zeroes(self.bytes_per_sector as usize);
        let lba = self.cluster_to_lba(cluster);
        let bps = self.bytes_per_sector;
        let mut s: u32 = 0;
        while s < self.sectors_per_cluster
            invariant
                self.wf(),
                healthy(old(dev), self.bytes_per_sector as int) ==> healthy(dev, self.bytes_per_sector as int),
                lba == self.lba_of(cluster),
                lba <= 0x1_0000_0000 * 0x101,
                bps == self.bytes_per_sector,
                zero@ == Seq::new(bps as nat, |i: int| 0u8),
                s <= self.sectors_per_cluster,
                disk_of(dev) == put_blocks(
                    after_fat,
                    lba as int,
                    Seq::new(self.cluster_bytes(), |i: int| 0u8),
                    bps as nat,
                    s as nat,
                ),
            decreases self.sectors_per_cluster - s,
        {
            let ghost zs = Seq::new(self.cluster_bytes(), |i: int| 0u8);
            assert((s as int) * (bps as int) + (bps as int) <= (self.sectors_per_cluster as int) * (bps as int))
                by (nonlinear_arith)
                requires
                    s < self.sectors_per_cluster,
            ;
            assert((s + 1) as int * bps as int == s as int * bps as int + bps as int) by (nonlinear_arith);
            assert(zs.subrange(s as int * bps as int, (s + 1) as int * bps as int) =~= zero@);
            write_sector(dev, lba + s as u64, zero.as_slice())?;
            s = s + 1;
        }
        Ok(())
    }

    /// Takes the first free cluster from number 3 on: marks it as the end of a chain and
    /// zeroes its blocks.
    fn alloc_cluster<D: BlockDevice>(&self, dev: &mut D) -> (r: Result<u32, &'static str>)
        requires
            self.wf(),
        ensures
            r is Ok ==> ({
                let c = r->Ok_0;
                let disk = disk_of(old(dev));
                &&& 3 <= c < self.fat_entries()
                &&& self.fat_entry(disk, c) == 0
                &&& forall|j: u32| 3 <= j < c ==> self.fat_entry(disk, j) != 0
                &&& disk_of(final(dev)) == self.cluster_zeroed(self.fat_put(disk, c, 0x0FFF_FFFF), c)
                &&& disk(self.fat_lba(c)).len() == self.bytes_per_sector
            }),
            healthy(old(dev), self.bytes_per_sector as int) ==> healthy(final(dev), self.bytes_per_sector as int),
            healthy(old(dev), self.bytes_per_sector as int) && (exists|j: u32| 3 <= j < self.fat_entries() && #[trigger] self.fat_entry(disk_of(old(dev)), j) == 0) ==> r is Ok,
    {
        let ghost disk = disk_of(dev);
        let total_entries = self.fat_size_sectors.wrapping_mul(self.bytes_per_sector) / 4;
        let mut cluster: u32 = 3;
        while cluster < total_entries
            invariant
                self.wf(),
                disk_of(dev) == disk,
                disk == disk_of(old(dev)),
                healthy(old(dev), self.bytes_per_sector as int) ==> healthy(dev, self.bytes_per_sector as int),
                total_entries == self.fat_entries(),
                3 <= cluster,
                forall|j: u32| 3 <= j < cluster ==> self.fat_entry(disk, j) != 0,
            decreases total_entries - cluster,
        {
            let v = self.next_cluster(dev, cluster)?;
            if v == 0 {
                self.claim_cluster(dev, cluster)?;
                return Ok(cluster);
            }
            cluster = cluster + 1;
        }
        Err("There is no free space left on the disk")
    }
}


impl Fat32 {
    /// The scan state just before record `k` of the `ci`-th cluster of `cs`.
    pub open spec fn scan_before(&self, disk: Disk, cs: Seq<u32>, ci: int, k: int, parent: u32) -> DirScan {
        scan_data(
            self.scan_clusters(disk, cs.subrange(0, ci), parent),
            self.cluster_data(disk, cs[ci]),
            k as nat,
            parent,
        )
    }

    /// Whether record `k` of the `ci`-th cluster of `cs` is the first entry of the directory
    /// named `target` (ASCII case ignored).
    pub open spec fn first_match_at(&self, disk: Disk, cs: Seq<u32>, ci: int, k: int, parent: u32, target: Seq<u8>) -> bool {
        let data = self.cluster_data(disk, cs[ci]);
        let st = self.scan_before(disk, cs, ci, k, parent);
        &&& 0 <= ci < cs.len()
        &&& 0 <= k
        &&& 32 * k + 32 <= data.len()
        &&& !st.done
        &&& rec_kind(st.lfn, record(data, k)) matches RecKind::Entry(name) && eq_ignore_case(name, target)
        &&& forall|i: int| 0 <= i < st.entries.len() ==> !eq_ignore_case(#[trigger] st.entries[i].name, target)
    }

    /// Whether `after` is `before` with the first entry named `target` of the directory at
    /// `dir` given the size `size` and first cluster `cluster`.
    pub open spec fn dir_patched(&self, before: Disk, after: Disk, dir: u32, target: Seq<u8>, size: u32, cluster: u32) -> bool {
        exists|cs: Seq<u32>, ci: int, k: int|
            #![trigger self.first_match_at(before, cs, ci, k, dir, target)]
            self.chain(before, dir, max_chain()) == Some(cs) && self.first_match_at(
                before,
                cs,
                ci,
                k,
                dir,
                target,
            ) && after == self.cluster_put(
                before,
                cs[ci],
                patch_record(self.cluster_data(before, cs[ci]), k, size, cluster),
            )
    }

    /// Sets the size and first cluster of the first entry named `target_name` (ASCII case
    /// ignored) in the directory at `dir_cluster`. Fails when the directory has no such entry.
    fn update_dir_entry<D: BlockDevice>(&self, dev: &mut D, dir_cluster: u32, target_name: &[u8], new_size: u32, new_cluster: u32) -> (r: Result<(), &'static str>)
        requires
            self.wf(),
        ensures
            r is Ok ==> self.dir_patched(
                disk_of(old(dev)),
                disk_of(final(dev)),
                dir_cluster,
                target_name@,
                new_size,
                new_cluster,
            ),
            healthy(old(dev), self.bytes_per_sector as int) ==> healthy(final(dev), self.bytes_per_sector as int),
            healthy(old(dev), self.bytes_per_sector as int) && r is Err ==> match self.chain(disk_of(old(dev)), dir_cluster, max_chain()) {
                Some(cs) => forall|i: int| 0 <= i < self.scan_clusters(disk_of(old(dev)), cs, dir_cluster).entries.len()
                    ==> !eq_ignore_case(
                    #[trigger] self.scan_clusters(disk_of(old(dev)), cs, dir_cluster).entries[i].name,
                    target_name@,
                ),
                None => true,
            },
    {
        let ghost disk = disk_of(dev);
        let chain = self.cluster_chain(dev, dir_cluster)?;
        let ghost cs = chain@;
        let mut lfn: Vec<u8> = Vec::new();
        let ghost mut st = scan_start();
        let mut ci: usize = 0;
        assert(cs.subrange(0, 0) =~= Seq::<u32>::empty());
        while ci < chain.len()
            invariant
                self.wf(),
                disk_of(dev) == disk,
                disk == disk_of(old(dev)),
                cs == chain@,
                self.chain(disk, dir_cluster, max_chain()) == Some(cs),
                ci <= cs.len(),
                st == self.scan_clusters(disk, cs.subrange(0, ci as int), dir_cluster),
                !st.done,
                lfn@ == st.lfn,
                forall|i: int| 0 <= i < st.entries.len() ==> !eq_ignore_case(#[trigger] st.entries[i].name, target_name@),
                healthy(old(dev), self.bytes_per_sector as int) ==> healthy(dev, self.bytes_per_sector as int),
            decreases cs.len() - ci,
        {
            let cluster = chain[ci];
            proof {
                self.lemma_chain_members(disk, dir_cluster, max_chain(), ci as int);
            }
            let mut data = self.read_cluster(dev, cluster)?;
            let ghost base = st;
            let dlen = data.len();
            let mut k: usize = 0;
            while k < dlen && dlen - k >= 32
                invariant
                    self.wf(),
                    disk_of(dev) == disk,
                    disk == disk_of(old(dev)),
                    cs == chain@,
                    self.chain(disk, dir_cluster, max_chain()) == Some(cs),
                    ci < cs.len(),
                    cluster == cs[ci as int],
                    cluster >= 2,
                    base == self.scan_clusters(disk, cs.subrange(0, ci as int), dir_cluster),
                    data@ == self.cluster_data(disk, cluster),
                    dlen == data@.len(),
                    dlen == self.cluster_bytes(),
                    k % 32 == 0,
                    k <= dlen,
                    st == scan_data(base, data@, (k / 32) as nat, dir_cluster),
                    !st.done,
                    lfn@ == st.lfn,
                    forall|i: int| 0 <= i < st.entries.len() ==> !eq_ignore_case(#[trigger] st.entries[i].name, target_name@),
                    healthy(old(dev), self.bytes_per_sector as int) ==> healthy(dev, self.bytes_per_sector as int),
                decreases dlen - k,
            {
                let ghost rec = data@.subrange(k as int, k + 32);
                assert(rec == record(data@, (k / 32) as int));
                assert(st == self.scan_before(disk, cs, ci as int, (k / 32) as int, dir_cluster));
                let kind = record_kind(&mut lfn, data.as_slice(), k);
                match kind {
                    RecordKind::End => {
                        proof {
                            let st2 = scan_step(st, rec, dir_cluster);
                            assert(st2.done && st2.entries == st.entries);
                            assert(((k + 32) / 32) as nat == (k / 32) as nat + 1);
                            assert(st2 == scan_data(base, data@, ((k + 32) / 32) as nat, dir_cluster));
                            lemma_scan_data_done(st2, data@, (dlen / 32 - (k + 32) / 32) as nat, dir_cluster);
                            self.lemma_scan_data_split(base, data@, ((k + 32) / 32) as nat, (dlen / 32) as nat, dir_cluster);
                            let pre = cs.subrange(0, ci + 1);
                            assert(pre.drop_last() =~= cs.subrange(0, ci as int));
                            assert(pre.last() == cluster);
                            self.lemma_scan_clusters_done(disk, cs, ci + 1, dir_cluster);
                        }
                        return Err("The directory entry could not be updated (file not found)");
                    },
                    RecordKind::Other => {},
                    RecordKind::Entry(name) => {
                        if bytes_eq_ignore_case(name.as_slice(), target_name) {
                            let ghost orig = data@;
                            put_le32(&mut data, k + 28, new_size);
                            let cl_hi = ((new_cluster >> 16u32) & 0xFFFF) as u16;
                            let cl_lo = (new_cluster & 0xFFFF) as u16;
                            assert(cl_hi == (new_cluster / 0x1_0000) as u16 && cl_lo == (new_cluster
                                % 0x1_0000) as u16) by (bit_vector)
                                requires
                                    cl_hi == ((new_cluster >> 16u32) & 0xFFFF) as u16,
                                    cl_lo == (new_cluster & 0xFFFF) as u16,
                            ;
                            put_le16(&mut data, k + 20, cl_hi);
                            put_le16(&mut data, k + 26, cl_lo);
                            assert(data@ == patch_record(orig, (k / 32) as int, new_size, new_cluster));
                            self.write_cluster(dev, cluster, data.as_slice())?;
                            proof {
                                let kk = (k / 32) as int;
                                let cci = ci as int;
                                assert(self.first_match_at(disk, cs, cci, kk, dir_cluster, target_name@));
                                assert(disk_of(dev) == self.cluster_put(
                                    disk,
                                    cs[cci],
                                    patch_record(self.cluster_data(disk, cs[cci]), kk, new_size, new_cluster),
                                ));
                                let after = disk_of(dev);
                                let t = target_name@;
                                assert(self.dir_patched(disk, after, dir_cluster, t, new_size, new_cluster));
                            }
                            return Ok(());
                        }
                    },
                }
                proof {
                    assert(((k + 32) / 32) as nat == (k / 32) as nat + 1);
                    st = scan_step(st, rec, dir_cluster);
                }
                k = k + 32;
            }
            proof {
                assert(k / 32 == dlen / 32) by {
                    assert(k % 32 == 0);
                    assert(k > dlen - 32);
                }
                let pre = cs.subrange(0, ci + 1);
                assert(pre.drop_last() =~= cs.subrange(0, ci as int));
                assert(pre.last() == cluster);
            }
            ci = ci + 1;
        }
        assert(cs.subrange(0, cs.len() as int) =~= cs);
        Err("The directory entry could not be updated (file not found)")
    }
}


impl Fat32 {
    /// Whether no cluster from 3 up to the last FAT entry is free on `disk`.
    pub open spec fn volume_full(&self, disk: Disk) -> bool {
        forall|j: u32| 3 <= j < self.fat_entries() ==> #[trigger] self.fat_entry(disk, j) != 0
    }

    /// Whether the directory at `dir` on `disk` has no entry named `name` (ASCII case
    /// ignored), or its chain cannot be followed.
    pub open spec fn lacks_entry(&self, disk: Disk, dir: u32, name: Seq<u8>) -> bool {
        match self.chain(disk, dir, max_chain()) {
            Some(cs) => forall|i: int| 0 <= i < self.scan_clusters(disk, cs, dir).entries.len()
                ==> !eq_ignore_case(#[trigger] self.scan_clusters(disk, cs, dir).entries[i].name, name),
            None => true,
        }
    }

    /// Whether writing a file of the directory at `dir` named `name` is blocked on `disk`: the
    /// volume has no free cluster, or the directory has no entry of that name.
    pub open spec fn write_blocked(&self, disk: Disk, dir: u32, name: Seq<u8>) -> bool {
        self.volume_full(disk) || self.lacks_entry(disk, dir, name)
    }

    /// Whether, on `disk`, the chain from `first` holds `data`: it can be followed, is as many
    /// clusters long as `data` needs, ends with the end-of-chain mark, and its bytes cut to
    /// the length of `data` are `data`.
    pub open spec fn stores(&self, disk: Disk, first: u32, data: Seq<u8>) -> bool {
        match self.chain(disk, first, max_chain()) {
            Some(cs) => {
                &&& cs.len() > 0
                &&& (cs.len() - 1) * self.cluster_bytes() < data.len() <= cs.len() * self.cluster_bytes()
                &&& self.fat_entry(disk, cs.last()) == 0x0FFF_FFFF
                &&& truncated(self.chain_data(disk, cs), data.len() as int) == data
            },
            None => false,
        }
    }

    /// Whether, on `mid`, every cluster of the chain from `first` on `d0` that starts at or
    /// past byte `n` of the file is free.
    pub open spec fn tail_freed(&self, d0: Disk, mid: Disk, first: u32, n: int) -> bool {
        match self.chain(d0, first, max_chain()) {
            Some(cs0) => forall|i: int| 0 <= i < cs0.len() && i * self.cluster_bytes() >= n ==> self.fat_entry(mid, #[trigger] cs0[i]) == 0,
            None => true,
        }
    }

    /// The directory that holds an entry: its parent cluster, or the root when that is no
    /// cluster number.
    pub open spec fn parent_of(&self, e: DirInfo) -> u32 {
        if e.parent_cluster >= 2 {
            e.parent_cluster
        } else {
            self.root_cluster
        }
    }

    /// Writes `data` as the content of the file `entry`: reuses the file's chain, extends it
    /// with newly allocated clusters as needed, frees what is left of the old chain, and
    /// records the new size and first cluster in the directory entry and in `entry`.
    #[verifier::spinoff_prover]
    #[verifier::rlimit(100)]
    pub fn write_file<D: BlockDevice>(&self, dev: &mut D, entry: &mut DirEntry, data: &[u8]) -> (r: Result<(), &'static str>)
        requires
            self.wf(),
            data@.len() <= usize::MAX - 0x100_0000,
        ensures
            old(entry).is_dir ==> r == Err::<(), &'static str>("Bu bir dizin, dosya degil") && final(entry)@ == old(entry)@
                && disk_of(final(dev)) == disk_of(old(dev)),
            r is Ok ==> final(entry)@ == (DirInfo {
                size: data@.len() as u32,
                first_cluster: final(entry).first_cluster,
                ..old(entry)@
            }),
            r is Ok && data@.len() == 0 ==> final(entry).first_cluster == old(entry).first_cluster,
            r is Ok && data@.len() > 0 ==> final(entry).first_cluster >= 2,
            r is Ok ==> (exists|mid: Disk|
                self.dir_patched(
                    mid,
                    disk_of(final(dev)),
                    self.parent_of(old(entry)@),
                    old(entry).name@,
                    final(entry).size,
                    final(entry).first_cluster,
                )),
            healthy(old(dev), self.bytes_per_sector as int) ==> healthy(final(dev), self.bytes_per_sector as int),
            healthy(old(dev), self.bytes_per_sector as int) && !old(entry).is_dir && r is Err ==> exists|mid: Disk|
                #[trigger] self.write_blocked(mid, self.parent_of(old(entry)@), old(entry).name@),
            r is Ok && old(entry).first_cluster == 0 && data@.len() > 0 && self.regions_ok() && fat_covers(*self, self.fat_entries())
                && data@.len() <= max_chain() * self.cluster_bytes() ==> exists|mid: Disk|
                #[trigger] self.dir_patched(
                    mid,
                    disk_of(final(dev)),
                    self.parent_of(old(entry)@),
                    old(entry).name@,
                    final(entry).size,
                    final(entry).first_cluster,
                ) && self.stores(mid, final(entry).first_cluster, data@),
            r is Ok && old(entry).first_cluster >= 2 && data@.len() > 0 && self.regions_ok() && fat_covers(*self, self.fat_entries())
                && self.clean_chain(disk_of(old(dev)), old(entry).first_cluster, self.fat_entries())
                && data@.len() <= max_chain() * self.cluster_bytes() ==> exists|mid: Disk|
                #[trigger] self.dir_patched(
                    mid,
                    disk_of(final(dev)),
                    self.parent_of(old(entry)@),
                    old(entry).name@,
                    final(entry).size,
                    final(entry).first_cluster,
                ) && self.stores(mid, final(entry).first_cluster, data@)
                    && self.tail_freed(disk_of(old(dev)), mid, old(entry).first_cluster, data@.len() as int),
    {
        let ghost top = self.fat_entries();
        let ghost law = old(entry).first_cluster == 0 && self.regions_ok() && fat_covers(*self, top);
        let ghost mut cs: Seq<u32> = Seq::empty();
        if entry.is_dir {
            return Err("Bu bir dizin, dosya degil");
        }
        let parent = if entry.parent_cluster >= 2 { entry.parent_cluster } else { self.root_cluster };
        if data.len() == 0 {
            entry.size = 0;
            let ghost mid = disk_of(dev);
            let r = self.update_dir_entry(dev, parent, entry.name.as_slice(), 0, entry.first_cluster);
            assert(r is Err && healthy(old(dev), self.bytes_per_sector as int) ==> self.write_blocked(mid, self.parent_of(old(entry)@), old(entry).name@));
            assert(r is Ok ==> self.dir_patched(
                mid,
                disk_of(dev),
                self.parent_of(old(entry)@),
                old(entry).name@,
                entry.size,
                entry.first_cluster,
            ));
            return r;
        }
        assert(self.sectors_per_cluster * self.bytes_per_sector <= 0xFF * 0xFFFF) by (nonlinear_arith)
            requires
                self.sectors_per_cluster <= 0xFF,
                self.bytes_per_sector <= 0xFFFF,
        ;
        assert(self.sectors_per_cluster * self.bytes_per_sector >= 1) by (nonlinear_arith)
            requires
                self.sectors_per_cluster >= 1,
                self.bytes_per_sector >= 1,
        ;
        let cluster_size = (self.sectors_per_cluster * self.bytes_per_sector) as usize;
        let ghost d_init = disk_of(dev);
        let ghost lawR = old(entry).first_cluster >= 2 && self.regions_ok() && fat_covers(*self, top)
            && self.clean_chain(d_init, old(entry).first_cluster, top);
        let ghost cs0: Seq<u32> = if lawR { self.chain(d_init, old(entry).first_cluster, max_chain())->Some_0 } else { Seq::empty() };
        proof {
            if lawR {
                self.lemma_chain_links(d_init, old(entry).first_cluster, max_chain());
                reveal(Fat32::reuse_state);
                reveal(run_body);
                assert(cs0.subrange(0, 0) =~= Seq::<u32>::empty());
            }
        }
        let mut current_cluster = entry.first_cluster;
        if current_cluster == 0 {
            let ghost d = disk_of(dev);
            current_cluster = match self.alloc_cluster(dev) {
                Ok(c) => c,
                Err(e) => {
                    assert(healthy(old(dev), self.bytes_per_sector as int) ==> self.volume_full(d));
                    assert(healthy(old(dev), self.bytes_per_sector as int) ==> self.write_blocked(d, self.parent_of(old(entry)@), old(entry).name@));
                    return Err(e);
                },
            };
            entry.first_cluster = current_cluster;
            proof {
                if law {
                    let zs = Seq::new(self.cluster_bytes(), |i: int| 0u8);
                    let dz = self.fat_put(d, current_cluster, 0x0FFF_FFFF);
                    lemma_fat_read_after_write(*self, d, current_cluster, 0x0FFF_FFFF);
                    assert(self.cluster_zeroed(dz, current_cluster) == self.cluster_put(dz, current_cluster, zs));
                    lemma_cluster_put_keeps_entry(*self, dz, current_cluster, zs, current_cluster);
                    reveal(holds_run);
                    reveal(run_body);
                }
            }
        }
        let mut offset: usize = 0;
        let mut prev_cluster: u32 = 0;
        while offset < data.len()
            invariant
                self.wf(),
                !old(entry).is_dir,
                !entry.is_dir,
                entry.name@ == old(entry).name@,
                entry.parent_cluster == old(entry).parent_cluster,
                entry.size == old(entry).size,
                cluster_size == self.cluster_bytes(),
                1 <= cluster_size <= 0xFF * 0xFFFF,
                data@.len() <= usize::MAX - 0x100_0000,
                offset <= data@.len(),
                offset > 0 ==> entry.first_cluster >= 2,
                offset > 0 ==> prev_cluster >= 2 && prev_cluster < 0x4000_0000,
                offset == 0 ==> prev_cluster == 0,
                offset == 0 ==> current_cluster == entry.first_cluster,
                current_cluster == 0 ==> offset > 0,
                healthy(old(dev), self.bytes_per_sector as int) ==> healthy(dev, self.bytes_per_sector as int),
                law == (old(entry).first_cluster == 0 && self.regions_ok() && fat_covers(*self, top)),
                top == self.fat_entries(),
                law ==> offset <= cs.len() * cluster_size && (offset < data@.len() ==> offset == cs.len() * cluster_size),
                law && cs.len() == 0 ==> current_cluster == entry.first_cluster && 3 <= current_cluster < top
                    && self.fat_entry(disk_of(dev), current_cluster) == 0x0FFF_FFFF && holds_run(*self, top, disk_of(dev), cs, data@),
                law && cs.len() > 0 ==> holds_run(*self, top, disk_of(dev), cs, data@) && current_cluster == 0x0FFF_FFFF
                    && prev_cluster == cs.last() && entry.first_cluster == cs[0] && (cs.len() - 1) * cluster_size < data@.len()
                    && prev_cluster >= 3 && offset > 0,
                d_init == disk_of(old(dev)),
                lawR == (old(entry).first_cluster >= 2 && self.regions_ok() && fat_covers(*self, top)
                    && self.clean_chain(d_init, old(entry).first_cluster, top)),
                lawR ==> self.chain_shape(top, d_init, cs0[0], cs0) && cs0[0] == old(entry).first_cluster,
                lawR ==> self.reuse_state(top, disk_of(dev), cs, cs0, d_init, data@),
                lawR ==> offset <= cs.len() * cluster_size && (offset < data@.len() ==> offset == cs.len() * cluster_size),
                lawR && cs.len() < cs0.len() ==> current_cluster == cs0[cs.len() as int],
                lawR && cs.len() >= cs0.len() ==> current_cluster >= 0x0FFF_FFF8,
                lawR && cs.len() > 0 ==> prev_cluster == cs.last() && entry.first_cluster == cs[0] && prev_cluster >= 3
                    && (cs.len() - 1) * cluster_size < data@.len() && offset > 0,
                lawR && cs.len() == 0 ==> entry.first_cluster == old(entry).first_cluster,
            decreases data@.len() - offset,
        {
            let ghost d0 = disk_of(dev);
            let ghost mut d1 = disk_of(dev);
            if current_cluster < 2 || current_cluster >= 0x0FFF_FFF8 {
                let ghost d = disk_of(dev);
                let new_cluster = match self.alloc_cluster(dev) {
                    Ok(c) => c,
                    Err(e) => {
                        assert(healthy(old(dev), self.bytes_per_sector as int) ==> self.volume_full(d));
                        assert(healthy(old(dev), self.bytes_per_sector as int) ==> self.write_blocked(d, self.parent_of(old(entry)@), old(entry).name@));
                        return Err(e);
                    },
                };
                proof {
                    d1 = disk_of(dev);
                }
                if prev_cluster != 0 {
                    self.set_fat_entry(dev, prev_cluster, new_cluster)?;
                } else {
                    entry.first_cluster = new_cluster;
                }
                current_cluster = new_cluster;
                proof {
                    if law {
                        assert(cs.len() > 0);
                        assert(prev_cluster != 0);
                    }
                }
            }
            let ghost d2 = disk_of(dev);
            let end = if data.len() - offset > cluster_size { offset + cluster_size } else { data.len() };
            let mut chunk = zeroes(cluster_size);
            let piece = slice_of(data, offset, end);
            crate::bytes::put_bytes(&mut chunk, 0, piece.as_slice());
            assert(chunk@ =~= crate::fsops::chunk(data@, offset as int, self.cluster_bytes()));
            self.write_cluster(dev, current_cluster, chunk.as_slice())?;
            proof {
                if law {
                    if cs.len() == 0 {
                        reveal(run_body);
                        lemma_run_fill(*self, top, d2, disk_of(dev), cs, data@, current_cluster, offset as int);
                    } else {
                        lemma_run_step(*self, top, d0, d1, d2, disk_of(dev), cs, data@, current_cluster, prev_cluster, offset as int);
                    }
                }
                if lawR {
                    if cs.len() < cs0.len() {
                        self.lemma_reuse_write(top, d2, disk_of(dev), cs, cs0, d_init, data@, offset as int);
                    } else {
                        reveal(Fat32::reuse_state);
                        self.lemma_reuse_grow(top, d0, d1, d2, disk_of(dev), cs, cs0, d_init, data@, current_cluster, offset as int);
                    }
                }
            }
            let ghost wrote = current_cluster;
            prev_cluster = current_cluster;
            current_cluster = self.next_cluster(dev, current_cluster)?;
            proof {
                if law {
                    cs = cs.push(wrote);
                    reveal(holds_run);
                    assert(cs.last() == wrote);
                    assert(wrote >= 3);
                    assert((cs.len() - 1) * cluster_size < data@.len());
                }
                if lawR {
                    let k = cs.len() as int;
                    if k + 1 < cs0.len() {
                        assert(self.fat_entry(d_init, cs0[k]) == cs0[k + 1]);
                    } else if k < cs0.len() {
                        assert(cs0.last() == cs0[k]);
                    }
                    cs = cs.push(wrote);
                    assert(cs.last() == wrote);
                    assert(cs[0] == entry.first_cluster) by {
                        if k > 0 {
                            assert(cs[0] == cs.drop_last()[0]);
                        }
                    }
                    assert((cs.len() - 1) * cluster_size < data@.len());
                }
            }
            assert(law || lawR ==> end <= cs.len() * cluster_size && (end < data@.len() ==> end == cs.len() * cluster_size)) by (nonlinear_arith)
                requires
                    law || lawR ==> offset == (cs.len() - 1) * cluster_size,
                    end < data@.len() ==> end == offset + cluster_size,
                    end <= offset + cluster_size,
            ;
            offset = end;
        }
        let ghost d3 = disk_of(dev);
        if prev_cluster != 0 {
            self.set_fat_entry(dev, prev_cluster, 0x0FFF_FFFF)?;
        }
        proof {
            if law {
                assert(cs.len() > 0) by {
                    if cs.len() == 0 {
                        assert(offset == 0);
                    }
                }
                lemma_run_close(*self, top, d3, disk_of(dev), cs, data@, prev_cluster);
            }
            if lawR {
                assert(cs.len() > 0) by {
                    if cs.len() == 0 {
                        assert(offset == 0);
                    }
                }
                self.lemma_reuse_close(top, d3, disk_of(dev), cs, cs0, d_init, data@);
                reveal(Fat32::reuse_state);
            }
        }
        let ghost d4 = disk_of(dev);
        let ghost k = cs.len() as int;
        let ghost mut j: int = if lawR && k < cs0.len() { k } else { cs0.len() as int };
        let mut to_free = current_cluster;
        let mut guard: u32 = 0;
        while to_free >= 2 && to_free < 0x0FFF_FFF8
            invariant
                self.wf(),
                !old(entry).is_dir,
                guard <= 100_000,
                healthy(old(dev), self.bytes_per_sector as int) ==> healthy(dev, self.bytes_per_sector as int),
                law ==> to_free == 0x0FFF_FFFF && disk_of(dev) == d4,
                lawR ==> self.chain_shape(top, d_init, cs0[0], cs0) && k == cs.len() && k > 0,
                lawR && k >= cs0.len() ==> to_free >= 0x0FFF_FFF8 && disk_of(dev) == d4,
                lawR && k < cs0.len() ==> {
                    &&& k <= j <= cs0.len()
                    &&& guard == j - k
                    &&& j < cs0.len() ==> to_free == cs0[j]
                    &&& j == cs0.len() ==> to_free >= 0x0FFF_FFF8
                    &&& cs == cs0.subrange(0, k)
                    &&& run_body(*self, top, disk_of(dev), cs, data@)
                    &&& self.fat_entry(disk_of(dev), cs.last()) == 0x0FFF_FFFF
                    &&& forall|i: int| j <= i < cs0.len() ==> self.fat_entry(disk_of(dev), #[trigger] cs0[i]) == self.fat_entry(d_init, cs0[i])
                    &&& forall|i: int| k <= i < j ==> self.fat_entry(disk_of(dev), #[trigger] cs0[i]) == 0
                },
                lawR == (old(entry).first_cluster >= 2 && self.regions_ok() && fat_covers(*self, top)
                    && self.clean_chain(d_init, old(entry).first_cluster, top)),
                law == (old(entry).first_cluster == 0 && self.regions_ok() && fat_covers(*self, top)),
                d_init == disk_of(old(dev)),
                top == self.fat_entries(),
            ensures
                lawR && k < cs0.len() ==> j == cs0.len(),
            decreases 100_000 - guard,
        {
            let ghost dd = disk_of(dev);
            let next = self.next_cluster(dev, to_free)?;
            self.set_fat_entry(dev, to_free, 0)?;
            proof {
                if lawR {
                    self.lemma_reuse_free(top, dd, disk_of(dev), cs, cs0, d_init, data@, k, j);
                    if j + 1 < cs0.len() {
                        assert(self.fat_entry(d_init, cs0[j]) == cs0[j + 1]);
                    } else {
                        assert(cs0.last() == cs0[j]);
                    }
                    j = j + 1;
                }
            }
            to_free = next;
            if guard >= 100_000 {
                break;
            }
            guard += 1;
        }
        entry.size = data.len() as u32;
        let ghost mid = disk_of(dev);
        match self.update_dir_entry(dev, parent, entry.name.as_slice(), entry.size, entry.first_cluster) {
            Ok(()) => {},
            Err(e) => {
                assert(healthy(old(dev), self.bytes_per_sector as int) ==> self.write_blocked(mid, self.parent_of(old(entry)@), old(entry).name@));
                return Err(e);
            },
        }
        assert(self.dir_patched(
            mid,
            disk_of(dev),
            self.parent_of(old(entry)@),
            old(entry).name@,
            entry.size,
            entry.first_cluster,
        ));
        proof {
            if law && data@.len() <= max_chain() * self.cluster_bytes() {
                self.lemma_write_file_stores(top, mid, cs, data@);
                assert(entry.first_cluster == cs[0]);
            }
            if lawR && data@.len() <= max_chain() * self.cluster_bytes() {
                if k < cs0.len() {
                    assert(j == cs0.len());
                }
                self.lemma_reuse_finish(top, d_init, mid, old(entry).first_cluster, cs, cs0, data@);
                assert(entry.first_cluster == cs[0]);
            }
        }
        Ok(())
    }

    /// After a write that reused the chain `cs0` from `first`: the run `cs` on `mid` is what
    /// the chain from its first cluster stores, and the old clusters past it are free.
    pub proof fn lemma_reuse_finish(&self, top: int, d0: Disk, mid: Disk, first: u32, cs: Seq<u32>, cs0: Seq<u32>, data: Seq<u8>)
        requires
            self.wf(),
            fat_covers(*self, top),
            self.chain(d0, first, max_chain()) == Some(cs0),
            run_body(*self, top, mid, cs, data),
            cs.len() > 0,
            self.fat_entry(mid, cs.last()) == 0x0FFF_FFFF,
            (cs.len() - 1) * self.cluster_bytes() < data.len() <= cs.len() * self.cluster_bytes(),
            data.len() <= max_chain() * self.cluster_bytes(),
            forall|i: int| cs.len() <= i < cs0.len() ==> self.fat_entry(mid, #[trigger] cs0[i]) == 0,
        ensures
            self.stores(mid, cs[0], data),
            self.tail_freed(d0, mid, first, data.len() as int),
    {
        let cb = self.cluster_bytes();
        let k = cs.len() as int;
        assert(holds_run(*self, top, mid, cs, data)) by {
            reveal(holds_run);
        }
        self.lemma_write_file_stores(top, mid, cs, data);
        assert forall|i: int| 0 <= i < cs0.len() && i * cb >= data.len() implies self.fat_entry(mid, #[trigger] cs0[i]) == 0 by {
            assert(i >= k) by (nonlinear_arith)
                requires
                    (k - 1) * cb < data.len(),
                    i * cb >= data.len(),
                    cb >= 1,
            ;
        }
    }

    /// A run written by `write_file`, as long as `data` needs and no longer than a chain is
    /// followed, is what the chain from its first cluster stores.
    proof fn lemma_write_file_stores(&self, top: int, mid: Disk, cs: Seq<u32>, data: Seq<u8>)
        requires
            self.wf(),
            fat_covers(*self, top),
            holds_run(*self, top, mid, cs, data),
            cs.len() > 0,
            (cs.len() - 1) * self.cluster_bytes() < data.len() <= cs.len() * self.cluster_bytes(),
            data.len() <= max_chain() * self.cluster_bytes(),
        ensures
            self.stores(mid, cs[0], data),
    {
        let cb = self.cluster_bytes();
        assert(cs.len() <= max_chain()) by (nonlinear_arith)
            requires
                (cs.len() - 1) * cb < data.len(),
                data.len() <= max_chain() * cb,
        ;
        lemma_run_chain(*self, top, mid, cs, data, 0, max_chain());
        assert(cs.subrange(0, cs.len() as int) =~= cs);
        lemma_run_data(*self, top, mid, cs, data, cs.len() as int);
        lemma_chunk_cut(data, (cs.len() * cb) as nat);
        reveal(holds_run);
    }
}

} // verus!

verus! {

/// Block `lba + k` of `d` after `put_blocks` holds the `k`-th `size`-byte piece of `data`.
proof fn lemma_put_blocks_at(d: Disk, lba: int, data: Seq<u8>, size: nat, n: nat, k: int)
    requires
        0 <= k < n,
        0 <= lba,
        lba + n <= u64::MAX,
    ensures
        put_blocks(d, lba, data, size, n)((lba + k) as u64) == data.subrange(k * size, (k + 1) * size),
    decreases n,
{
    if k < n - 1 {
        lemma_put_blocks_at(d, lba, data, size, (n - 1) as nat, k);
        assert((lba + (n - 1)) as u64 != (lba + k) as u64);
    }
}

/// Blocks outside `lba .. lba + n` are left alone by `put_blocks`.
pub proof fn lemma_put_blocks_outside(d: Disk, lba: int, data: Seq<u8>, size: nat, n: nat, l: u64)
    requires
        0 <= lba,
        lba + n <= u64::MAX,
        !(lba <= l < lba + n),
    ensures
        put_blocks(d, lba, data, size, n)(l) == d(l),
    decreases n,
{
    if n > 0 {
        lemma_put_blocks_outside(d, lba, data, size, (n - 1) as nat, l);
    }
}

/// The first `m` blocks after `put_blocks` read as the first `m` pieces of `data`.
proof fn lemma_blocks_of_put(d: Disk, lba: int, data: Seq<u8>, size: nat, n: nat, m: nat)
    requires
        m <= n,
        data.len() == n * size,
        0 <= lba,
        lba + n <= u64::MAX,
    ensures
        Fat32::blocks(put_blocks(d, lba, data, size, n), lba, m) == data.subrange(0, (m * size) as int),
    decreases m,
{
    if m > 0 {
        lemma_blocks_of_put(d, lba, data, size, n, (m - 1) as nat);
        lemma_put_blocks_at(d, lba, data, size, n, m - 1);
        let pb = put_blocks(d, lba, data, size, n);
        let a = (m - 1) * size;
        let b: int = (m * size) as int;
        assert(a + size == b) by (nonlinear_arith)
            requires
                a == (m - 1) * size,
                b == m * size,
        ;
        assert(b <= n * size) by (nonlinear_arith)
            requires
                m <= n,
                b == m * size,
        ;
        assert(0 <= a) by (nonlinear_arith)
            requires
                m >= 1,
                a == (m - 1) * size,
        ;
        assert(Fat32::blocks(pb, lba, ((m - 1) as nat)) == data.subrange(0, a));
        assert(pb((lba + (m - 1)) as u64) == data.subrange(a, a + size));
        assert(Fat32::blocks(pb, lba, m) == Fat32::blocks(pb, lba, (m - 1) as nat) + pb((lba + (m - 1)) as u64));
        assert(data.subrange(0, a) + data.subrange(a, b) =~= data.subrange(0, b));
        assert(Fat32::blocks(pb, lba, m) =~= data.subrange(0, b));
    } else {
        assert(m * size == 0) by (nonlinear_arith)
            requires
                m == 0,
        ;
        assert(data.subrange(0, 0) =~= Seq::<u8>::empty());
    }
}

/// Blocks that `put_blocks` leaves alone read as before.
proof fn lemma_blocks_unput(d: Disk, lba: int, data: Seq<u8>, size: nat, n: nat, lba2: int, m: nat)
    requires
        0 <= lba,
        lba + n <= u64::MAX,
        0 <= lba2,
        lba2 + m <= u64::MAX,
        lba2 + m <= lba || lba + n <= lba2,
    ensures
        Fat32::blocks(put_blocks(d, lba, data, size, n), lba2, m) == Fat32::blocks(d, lba2, m),
    decreases m,
{
    if m > 0 {
        lemma_blocks_unput(d, lba, data, size, n, lba2, (m - 1) as nat);
        lemma_put_blocks_outside(d, lba, data, size, n, (lba2 + (m - 1)) as u64);
    }
}

impl Fat32 {
    /// First block of a cluster stays well below the end of the block numbers.
    pub proof fn lemma_lba_of_bound(&self, c: u32)
        requires
            self.wf(),
            c >= 2,
        ensures
            0 <= self.lba_of(c),
            self.lba_of(c) + self.sectors_per_cluster <= 0x1_0000_0000 * 0x101,
    {
        assert((c - 2) * self.sectors_per_cluster + self.sectors_per_cluster <= 0x1_0000_0000 * 0xFF) by (nonlinear_arith)
            requires
                c <= 0xFFFF_FFFF,
                c >= 2,
                self.sectors_per_cluster <= 0xFF,
        ;
        assert((c - 2) * self.sectors_per_cluster >= 0) by (nonlinear_arith)
            requires
                c >= 2,
        ;
    }
}

/// A cluster reads back what was written to it: after `cluster_put` of a whole cluster's
/// worth of bytes, `cluster_data` of that cluster is those bytes.
pub proof fn lemma_cluster_read_after_write(fat: Fat32, d: Disk, c: u32, data: Seq<u8>)
    requires
        fat.wf(),
        c >= 2,
        data.len() == fat.cluster_bytes(),
    ensures
        fat.cluster_data(fat.cluster_put(d, c, data), c) == data,
{
    fat.lemma_lba_of_bound(c);
    lemma_blocks_of_put(
        d,
        fat.lba_of(c),
        data,
        fat.bytes_per_sector as nat,
        fat.sectors_per_cluster as nat,
        fat.sectors_per_cluster as nat,
    );
    assert(data.subrange(0, fat.cluster_bytes() as int) =~= data);
}

/// Writing one cluster leaves every other cluster as it was.
pub proof fn lemma_cluster_write_keeps_others(fat: Fat32, d: Disk, c: u32, data: Seq<u8>, c2: u32)
    requires
        fat.wf(),
        c >= 2,
        c2 >= 2,
        c2 != c,
    ensures
        fat.cluster_data(fat.cluster_put(d, c, data), c2) == fat.cluster_data(d, c2),
{
    fat.lemma_lba_of_bound(c);
    fat.lemma_lba_of_bound(c2);
    let spc = fat.sectors_per_cluster as int;
    if c2 < c {
        assert((c2 - 2) * spc + spc <= (c - 2) * spc) by (nonlinear_arith)
            requires
                c2 < c,
                c2 >= 2,
                spc >= 1,
        ;
    } else {
        assert((c - 2) * spc + spc <= (c2 - 2) * spc) by (nonlinear_arith)
            requires
                c < c2,
                c >= 2,
                spc >= 1,
        ;
    }
    lemma_blocks_unput(
        d,
        fat.lba_of(c),
        data,
        fat.bytes_per_sector as nat,
        fat.sectors_per_cluster as nat,
        fat.lba_of(c2),
        fat.sectors_per_cluster as nat,
    );
}

} // verus!

verus! {

/// The four bytes spliced in at `off` read back as the value they encode.
pub proof fn lemma_le32_splice(blk: Seq<u8>, off: int, v: u32)
    requires
        0 <= off,
        off + 4 <= blk.len(),
    ensures
        le32(splice(blk, off, le32_bytes(v)), off) == v,
{
    let t = le32_bytes(v);
    let b = splice(blk, off, t);
    assert(b[off] == t[0] && b[off + 1] == t[1] && b[off + 2] == t[2] && b[off + 3] == t[3]);
    crate::bytes::lemma_le32_of_bytes(v);
}

/// Four bytes spliced in at `off` leave the four bytes at a disjoint `off2` alone.
pub proof fn lemma_le32_splice_other(blk: Seq<u8>, off: int, v: u32, off2: int)
    requires
        0 <= off,
        off + 4 <= blk.len(),
        0 <= off2,
        off2 + 4 <= blk.len(),
        off2 + 4 <= off || off + 4 <= off2,
    ensures
        le32(splice(blk, off, le32_bytes(v)), off2) == le32(blk, off2),
{
    let b = splice(blk, off, le32_bytes(v));
    assert(b[off2] == blk[off2] && b[off2 + 1] == blk[off2 + 1] && b[off2 + 2] == blk[off2 + 2] && b[off2 + 3]
        == blk[off2 + 3]);
}

/// A FAT entry reads back what was written to it (its low 28 bits): `next_cluster` after
/// `set_fat_entry` of the same cluster.
pub proof fn lemma_fat_read_after_write(fat: Fat32, d: Disk, c: u32, v: u32)
    requires
        fat.wf(),
        c < 0x4000_0000,
        d(fat.fat_lba(c)).len() == fat.bytes_per_sector,
    ensures
        fat.fat_entry(fat.fat_put(d, c, v), c) == v % 0x1000_0000,
{
    lemma_entry_fits(c as int, fat.bytes_per_sector as int);
    let s = fat.fat_lba(c);
    let off = fat.fat_off(c);
    let blk = d(s);
    let old = le32(blk, off);
    crate::bytes::lemma_le32_bounds(blk, off);
    let newv = (old / 0x1000_0000) * 0x1000_0000 + v % 0x1000_0000;
    assert(0 <= newv <= u32::MAX);
    let buf = splice(blk, off, le32_bytes(newv as u32));
    assert(fat.fat_put(d, c, v)(s) == buf);
    lemma_le32_splice(blk, off, newv as u32);
    assert(newv % 0x1000_0000 == v % 0x1000_0000);
}

/// Writing the FAT entry of one cluster leaves the entry of every other cluster of the FAT
/// as it was.
pub proof fn lemma_fat_write_keeps_others(fat: Fat32, d: Disk, c: u32, v: u32, c2: u32)
    requires
        fat.wf(),
        c < 0x4000_0000,
        c2 < 0x4000_0000,
        c2 != c,
        d(fat.fat_lba(c)).len() == fat.bytes_per_sector,
        c2 * 4 < fat.fat_size_sectors * fat.bytes_per_sector,
    ensures
        fat.fat_entry(fat.fat_put(d, c, v), c2) == fat.fat_entry(d, c2),
{
    let bps = fat.bytes_per_sector as int;
    lemma_entry_fits(c as int, bps);
    lemma_entry_fits(c2 as int, bps);
    let s = fat.fat_lba(c);
    let s2 = fat.fat_lba(c2);
    let off = fat.fat_off(c);
    let off2 = fat.fat_off(c2);
    let blk = d(s);
    let old = le32(blk, off);
    crate::bytes::lemma_le32_bounds(blk, off);
    let newv = (old / 0x1000_0000) * 0x1000_0000 + v % 0x1000_0000;
    let buf = splice(blk, off, le32_bytes(newv as u32));
    vstd::arithmetic::div_mod::lemma_fundamental_div_mod(c as int * 4, bps);
    vstd::arithmetic::div_mod::lemma_fundamental_div_mod(c2 as int * 4, bps);
    assert((c2 as int * 4) / bps < fat.fat_size_sectors) by (nonlinear_arith)
        requires
            c2 as int * 4 == bps * ((c2 as int * 4) / bps) + (c2 as int * 4) % bps,
            (c2 as int * 4) % bps >= 0,
            c2 as int * 4 < fat.fat_size_sectors * bps,
            bps > 0,
    ;
    assert((c as int * 4) / bps >= 0) by (nonlinear_arith)
        requires
            bps > 0,
            c >= 0,
    ;
    assert(s2 != s + fat.fat_size_sectors);
    if s2 == s {
        assert((c as int * 4) / bps == (c2 as int * 4) / bps);
        assert(off != off2);
        assert(off2 + 4 <= off || off + 4 <= off2);
        lemma_le32_splice_other(blk, off, newv as u32, off2);
        assert(fat.fat_put(d, c, v)(s2) == buf);
    } else {
        assert(fat.fat_put(d, c, v)(s2) == d(s2));
    }
}

/// Blocks read the same from two disks that agree on them.
pub proof fn lemma_blocks_same(d1: Disk, d2: Disk, lba: int, n: nat)
    requires
        forall|k: int| 0 <= k < n ==> #[trigger] d1((lba + k) as u64) == d2((lba + k) as u64),
    ensures
        Fat32::blocks(d1, lba, n) == Fat32::blocks(d2, lba, n),
    decreases n,
{
    if n > 0 {
        lemma_blocks_same(d1, d2, lba, (n - 1) as nat);
        assert(d1((lba + (n - 1)) as u64) == d2((lba + (n - 1)) as u64));
    }
}

impl Fat32 {
    /// The volume's regions lie as a formatter lays them out: at least one FAT block, and
    /// every copy of the FAT before the first data block.
    pub open spec fn regions_ok(&self) -> bool {
        &&& self.fat_size_sectors >= 1
        &&& 1 <= self.num_fats
        &&& self.fat_start_lba + (if self.num_fats > 1 { 2 * self.fat_size_sectors as int } else { self.fat_size_sectors as int })
            <= self.data_start_lba
    }
}

/// The FAT block of a cluster covered by the first FAT lies before the data region.
pub proof fn lemma_fat_block_low(fat: Fat32, c: u32)
    requires
        fat.wf(),
        fat.regions_ok(),
        c as int * 4 < fat.fat_size_sectors * fat.bytes_per_sector,
    ensures
        fat.fat_lba(c) < fat.fat_start_lba + fat.fat_size_sectors,
        fat.fat_lba(c) + (if fat.num_fats > 1 { fat.fat_size_sectors as int } else { 0 }) < fat.data_start_lba,
{
    let bps = fat.bytes_per_sector as int;
    vstd::arithmetic::div_mod::lemma_fundamental_div_mod(c as int * 4, bps);
    assert((c as int * 4) / bps < fat.fat_size_sectors) by (nonlinear_arith)
        requires
            c as int * 4 == bps * ((c as int * 4) / bps) + (c as int * 4) % bps,
            (c as int * 4) % bps >= 0,
            c as int * 4 < fat.fat_size_sectors * bps,
            bps > 0,
    ;
}

/// Writing a FAT entry of a cluster the first FAT covers leaves every cluster's data alone.
pub proof fn lemma_fat_put_keeps_cluster(fat: Fat32, d: Disk, c: u32, v: u32, c2: u32)
    requires
        fat.wf(),
        fat.regions_ok(),
        c as int * 4 < fat.fat_size_sectors * fat.bytes_per_sector,
        c2 >= 2,
    ensures
        fat.cluster_data(fat.fat_put(d, c, v), c2) == fat.cluster_data(d, c2),
{
    lemma_fat_block_low(fat, c);
    fat.lemma_lba_of_bound(c2);
    assert((c2 - 2) * fat.sectors_per_cluster >= 0) by (nonlinear_arith)
        requires
            c2 >= 2,
    ;
    let d2 = fat.fat_put(d, c, v);
    assert forall|k: int| 0 <= k < fat.sectors_per_cluster implies #[trigger] d2((fat.lba_of(c2) + k) as u64) == d(
        (fat.lba_of(c2) + k) as u64,
    ) by {}
    lemma_blocks_same(d2, d, fat.lba_of(c2), fat.sectors_per_cluster as nat);
}

/// Writing the blocks of a cluster leaves every FAT entry the first FAT covers alone.
pub proof fn lemma_cluster_put_keeps_entry(fat: Fat32, d: Disk, c: u32, data: Seq<u8>, c2: u32)
    requires
        fat.wf(),
        fat.regions_ok(),
        c >= 2,
        c2 as int * 4 < fat.fat_size_sectors * fat.bytes_per_sector,
    ensures
        fat.fat_entry(fat.cluster_put(d, c, data), c2) == fat.fat_entry(d, c2),
{
    lemma_fat_block_low(fat, c2);
    fat.lemma_lba_of_bound(c);
    assert((c - 2) * fat.sectors_per_cluster >= 0) by (nonlinear_arith)
        requires
            c >= 2,
    ;
    lemma_put_blocks_outside(
        d,
        fat.lba_of(c),
        data,
        fat.bytes_per_sector as nat,
        fat.sectors_per_cluster as nat,
        fat.fat_lba(c2),
    );
}


impl Fat32 {
    /// Whether the chain from `first` on `disk` is one a write can reuse: it can be followed,
    /// has a cluster, every cluster is one the FAT covers below `top`, none comes twice, and
    /// it ends with an end-of-chain mark.
    pub open spec fn clean_chain(&self, disk: Disk, first: u32, top: int) -> bool {
        match self.chain(disk, first, max_chain()) {
            Some(cs) => {
                &&& cs.len() > 0
                &&& forall|i: int| 0 <= i < cs.len() ==> 3 <= #[trigger] cs[i] < top
                &&& forall|i: int, j: int| 0 <= i < j < cs.len() ==> cs[i] != cs[j]
                &&& self.fat_entry(disk, cs.last()) >= 0x0FFF_FFF8
            },
            None => false,
        }
    }

    /// A chain that can be followed starts at its first cluster, links each cluster to the
    /// next, ends at an entry that ends chains, holds no such entry itself, and is no longer
    /// than the links followed.
    pub proof fn lemma_chain_links(&self, disk: Disk, c: u32, f: nat)
        requires
            self.chain(disk, c, f) is Some,
        ensures
            ({
                let cs = self.chain(disk, c, f)->Some_0;
                &&& cs.len() <= f
                &&& cs.len() > 0 ==> cs[0] == c
                &&& forall|i: int| 0 <= i < cs.len() - 1 ==> self.fat_entry(disk, #[trigger] cs[i]) == cs[i + 1]
                &&& forall|i: int| 0 <= i < cs.len() ==> !is_chain_end(#[trigger] cs[i])
                &&& cs.len() > 0 ==> is_chain_end(self.fat_entry(disk, cs.last()))
            }),
        decreases f,
    {
        if !is_chain_end(c) {
            let n = self.fat_entry(disk, c);
            self.lemma_chain_links(disk, n, (f - 1) as nat);
            let rest = self.chain(disk, n, (f - 1) as nat)->Some_0;
            let cs = seq![c] + rest;
            assert(self.chain(disk, c, f)->Some_0 == cs);
            assert forall|i: int| 0 <= i < cs.len() - 1 implies self.fat_entry(disk, #[trigger] cs[i]) == cs[i + 1] by {
                if i > 0 {
                    assert(cs[i] == rest[i - 1]);
                    assert(cs[i + 1] == rest[i]);
                } else {
                    if rest.len() > 0 {
                        assert(rest[0] == n);
                    }
                }
            }
            assert forall|i: int| 0 <= i < cs.len() implies !is_chain_end(#[trigger] cs[i]) by {
                if i > 0 {
                    assert(cs[i] == rest[i - 1]);
                }
            }
            if rest.len() > 0 {
                assert(cs.last() == rest.last());
            } else {
                assert(cs.last() == c);
            }
        }
    }

    /// What a write that reuses the clean chain `cs0` (read on `d0`) has done when its run is
    /// `cs` on `disk`: the run's body holds, the run is a prefix of `cs0` (or `cs0` followed
    /// by new clusters), the run's last entry is the reused link or an end mark, and the
    /// entries of the old clusters not yet reached are as they were.
    #[verifier::opaque]
    pub open spec fn reuse_state(&self, top: int, disk: Disk, cs: Seq<u32>, cs0: Seq<u32>, d0: Disk, data: Seq<u8>) -> bool {
        &&& run_body(*self, top, disk, cs, data)
        &&& cs.len() <= cs0.len() ==> cs == cs0.subrange(0, cs.len() as int)
        &&& cs.len() > cs0.len() ==> cs.subrange(0, cs0.len() as int) == cs0
        &&& 0 < cs.len() < cs0.len() ==> self.fat_entry(disk, cs.last()) == cs0[cs.len() as int]
        &&& cs.len() > 0 && cs.len() >= cs0.len() ==> self.fat_entry(disk, cs.last()) >= 0x0FFF_FFF8
        &&& forall|j: int| cs.len() <= j < cs0.len() ==> self.fat_entry(disk, #[trigger] cs0[j]) == self.fat_entry(d0, cs0[j])
    }

    /// What reading the chain `cs0` from `first` on `d0` shows, as `reuse_state` needs it.
    pub open spec fn chain_shape(&self, top: int, d0: Disk, first: u32, cs0: Seq<u32>) -> bool {
        &&& cs0.len() > 0
        &&& cs0.len() <= max_chain()
        &&& cs0[0] == first
        &&& forall|i: int| 0 <= i < cs0.len() - 1 ==> self.fat_entry(d0, #[trigger] cs0[i]) == cs0[i + 1]
        &&& forall|i: int| 0 <= i < cs0.len() ==> 3 <= #[trigger] cs0[i] < top
        &&& forall|i: int, j: int| 0 <= i < j < cs0.len() ==> cs0[i] != cs0[j]
        &&& self.fat_entry(d0, cs0.last()) >= 0x0FFF_FFF8
    }

    /// Writing the next piece of the data into the next old cluster extends the state.
    pub proof fn lemma_reuse_write(&self, top: int, d2: Disk, d3: Disk, cs: Seq<u32>, cs0: Seq<u32>, d0: Disk, data: Seq<u8>, base: int)
        requires
            self.wf(),
            self.regions_ok(),
            fat_covers(*self, top),
            self.chain_shape(top, d0, cs0[0], cs0),
            self.reuse_state(top, d2, cs, cs0, d0, data),
            cs.len() < cs0.len(),
            base == cs.len() * self.cluster_bytes(),
            d3 == self.cluster_put(d2, cs0[cs.len() as int], crate::fsops::chunk(data, base, self.cluster_bytes())),
        ensures
            self.reuse_state(top, d3, cs.push(cs0[cs.len() as int]), cs0, d0, data),
            self.fat_entry(d3, cs0[cs.len() as int]) == self.fat_entry(d0, cs0[cs.len() as int]),
    {
        reveal(Fat32::reuse_state);
        let k = cs.len() as int;
        let c = cs0[k];
        assert(!cs.contains(c)) by {
            if cs.contains(c) {
                let i = choose|i: int| 0 <= i < cs.len() && cs[i] == c;
                assert(cs[i] == cs0[i]);
            }
        }
        if cs.len() > 0 {
            assert(cs.last() == cs0[k - 1]);
        }
        crate::fsops::lemma_run_extend(*self, top, d2, d3, cs, data, c, base);
        let cs1 = cs.push(c);
        assert(cs1 =~= cs0.subrange(0, k + 1));
        assert(self.fat_entry(d3, c) == self.fat_entry(d2, c));
        assert(cs1.last() == c);
        if k + 1 < cs0.len() {
            assert(self.fat_entry(d0, cs0[k]) == cs0[k + 1]);
        } else {
            assert(cs0.last() == cs0[k]);
        }
        assert forall|j: int| cs1.len() <= j < cs0.len() implies self.fat_entry(d3, #[trigger] cs0[j]) == self.fat_entry(d0, cs0[j]) by {
            assert(self.fat_entry(d3, cs0[j]) == self.fat_entry(d2, cs0[j]));
        }
    }

    /// A free cluster is not in a run whose entries are all in use.
    pub proof fn lemma_not_in_run(&self, top: int, d: Disk, cs: Seq<u32>, data: Seq<u8>, c: u32)
        requires
            run_body(*self, top, d, cs, data),
            cs.len() > 0 ==> self.fat_entry(d, cs.last()) != 0,
            self.fat_entry(d, c) == 0,
        ensures
            !cs.contains(c),
            cs.len() > 0 ==> 3 <= cs.last() < top,
    {
        reveal(run_body);
        if cs.len() > 0 {
            assert(cs.last() == cs[cs.len() - 1]);
        }
        if cs.contains(c) {
            let i = choose|i: int| 0 <= i < cs.len() && cs[i] == c;
            if i < cs.len() - 1 {
                assert(self.fat_entry(d, cs[i]) == cs[i + 1]);
            } else {
                assert(cs.last() == cs[i]);
            }
        }
    }

    /// Taking a free cluster and linking it after the run's last cluster keeps the run's body;
    /// the new cluster ends the chain and the run's last cluster leads to it.
    pub proof fn lemma_run_link_new(&self, top: int, da: Disk, d1: Disk, d2: Disk, cs: Seq<u32>, data: Seq<u8>, c: u32)
        requires
            self.wf(),
            self.regions_ok(),
            self.bytes_per_sector >= 512,
            fat_covers(*self, top),
            run_body(*self, top, da, cs, data),
            cs.len() > 0,
            self.fat_entry(da, cs.last()) != 0,
            self.fat_entry(da, c) == 0,
            3 <= c < top,
            da(self.fat_lba(c)).len() == self.bytes_per_sector,
            d1 == self.cluster_zeroed(self.fat_put(da, c, 0x0FFF_FFFF), c),
            d1(self.fat_lba(cs.last())).len() == self.bytes_per_sector,
            d2 == self.fat_put(d1, cs.last(), c),
        ensures
            !cs.contains(c),
            run_body(*self, top, d2, cs, data),
            self.fat_entry(d2, cs.last()) == c,
            self.fat_entry(d2, c) == 0x0FFF_FFFF,
    {
        self.lemma_not_in_run(top, da, cs, data, c);
        let dz = self.fat_put(da, c, 0x0FFF_FFFF);
        crate::fsops::lemma_run_fat_put(*self, top, da, dz, cs, data, c, 0x0FFF_FFFF);
        let zs = Seq::new(self.cluster_bytes(), |i: int| 0u8);
        assert(d1 == self.cluster_put(dz, c, zs));
        crate::fsops::lemma_run_cluster_put(*self, top, dz, d1, cs, data, c, zs);
        assert(self.fat_entry(d1, c) == 0x0FFF_FFFF);
        assert(cs.contains(cs.last())) by {
            assert(cs[cs.len() - 1] == cs.last());
        }
        crate::fsops::lemma_run_fat_put(*self, top, d1, d2, cs, data, cs.last(), c);
        assert(c != cs.last());
    }

    /// Taking a new cluster after the old chain ran out, linking it after the run and writing
    /// the next piece into it extends the state.
    #[verifier::spinoff_prover]
    pub proof fn lemma_reuse_grow(&self, top: int, da: Disk, d1: Disk, d2: Disk, d3: Disk, cs: Seq<u32>, cs0: Seq<u32>, d0: Disk, data: Seq<u8>, c: u32, base: int)
        requires
            self.wf(),
            self.regions_ok(),
            self.bytes_per_sector >= 512,
            fat_covers(*self, top),
            self.reuse_state(top, da, cs, cs0, d0, data),
            cs.len() >= cs0.len(),
            cs0.len() > 0,
            self.fat_entry(da, c) == 0,
            3 <= c < top,
            da(self.fat_lba(c)).len() == self.bytes_per_sector,
            d1 == self.cluster_zeroed(self.fat_put(da, c, 0x0FFF_FFFF), c),
            d1(self.fat_lba(cs.last())).len() == self.bytes_per_sector,
            d2 == self.fat_put(d1, cs.last(), c),
            d3 == self.cluster_put(d2, c, crate::fsops::chunk(data, base, self.cluster_bytes())),
            base == cs.len() * self.cluster_bytes(),
        ensures
            self.reuse_state(top, d3, cs.push(c), cs0, d0, data),
            self.fat_entry(d3, c) == 0x0FFF_FFFF,
    {
        reveal(Fat32::reuse_state);
        self.lemma_run_link_new(top, da, d1, d2, cs, data, c);
        crate::fsops::lemma_run_extend(*self, top, d2, d3, cs, data, c, base);
        let cs1 = cs.push(c);
        assert(cs1.subrange(0, cs0.len() as int) =~= cs.subrange(0, cs0.len() as int));
        if cs.len() == cs0.len() {
            assert(cs0.subrange(0, cs0.len() as int) =~= cs0);
            assert(cs == cs0);
            assert(cs.subrange(0, cs0.len() as int) =~= cs);
        }
        assert(cs1.subrange(0, cs0.len() as int) == cs0);
        assert(cs1.last() == c);
        assert(self.fat_entry(d3, c) == self.fat_entry(d2, c));
    }

    /// Ending the run at its last cluster keeps the state, with the end mark there.
    pub proof fn lemma_reuse_close(&self, top: int, d: Disk, d2: Disk, cs: Seq<u32>, cs0: Seq<u32>, d0: Disk, data: Seq<u8>)
        requires
            self.wf(),
            self.regions_ok(),
            self.bytes_per_sector >= 512,
            fat_covers(*self, top),
            self.chain_shape(top, d0, cs0[0], cs0),
            self.reuse_state(top, d, cs, cs0, d0, data),
            cs.len() > 0,
            d(self.fat_lba(cs.last())).len() == self.bytes_per_sector,
            d2 == self.fat_put(d, cs.last(), 0x0FFF_FFFF),
        ensures
            run_body(*self, top, d2, cs, data),
            self.fat_entry(d2, cs.last()) == 0x0FFF_FFFF,
            forall|j: int| cs.len() <= j < cs0.len() ==> self.fat_entry(d2, #[trigger] cs0[j]) == self.fat_entry(d0, cs0[j]),
            cs.len() < cs0.len() ==> cs == cs0.subrange(0, cs.len() as int),
    {
        reveal(Fat32::reuse_state);
        reveal(run_body);
        assert(cs.last() == cs[cs.len() - 1]);
        assert(cs.contains(cs.last()));
        crate::fsops::lemma_run_fat_put(*self, top, d, d2, cs, data, cs.last(), 0x0FFF_FFFF);
        assert forall|j: int| cs.len() <= j < cs0.len() implies self.fat_entry(d2, #[trigger] cs0[j]) == self.fat_entry(d0, cs0[j]) by {
            assert(cs.last() == cs0[cs.len() - 1]);
            assert(cs0[j] != cs0[cs.len() - 1]);
        }
    }

    /// Freeing the old cluster `cs0[j]` past the run keeps the run and the entries of the old
    /// clusters after it.
    pub proof fn lemma_reuse_free(&self, top: int, d: Disk, d2: Disk, cs: Seq<u32>, cs0: Seq<u32>, d0: Disk, data: Seq<u8>, k: int, j: int)
        requires
            self.wf(),
            self.regions_ok(),
            self.bytes_per_sector >= 512,
            fat_covers(*self, top),
            self.chain_shape(top, d0, cs0[0], cs0),
            run_body(*self, top, d, cs, data),
            cs.len() == k,
            0 < k <= j < cs0.len(),
            cs == cs0.subrange(0, k),
            self.fat_entry(d, cs.last()) == 0x0FFF_FFFF,
            forall|i: int| j <= i < cs0.len() ==> self.fat_entry(d, #[trigger] cs0[i]) == self.fat_entry(d0, cs0[i]),
            forall|i: int| k <= i < j ==> self.fat_entry(d, #[trigger] cs0[i]) == 0,
            d(self.fat_lba(cs0[j])).len() == self.bytes_per_sector,
            d2 == self.fat_put(d, cs0[j], 0),
        ensures
            run_body(*self, top, d2, cs, data),
            self.fat_entry(d2, cs.last()) == 0x0FFF_FFFF,
            forall|i: int| j + 1 <= i < cs0.len() ==> self.fat_entry(d2, #[trigger] cs0[i]) == self.fat_entry(d0, cs0[i]),
            forall|i: int| k <= i < j + 1 ==> self.fat_entry(d2, #[trigger] cs0[i]) == 0,
    {
        reveal(run_body);
        let c = cs0[j];
        assert(!cs.contains(c)) by {
            if cs.contains(c) {
                let i = choose|i: int| 0 <= i < cs.len() && cs[i] == c;
                assert(cs[i] == cs0[i]);
            }
        }
        crate::fsops::lemma_run_fat_put(*self, top, d, d2, cs, data, c, 0);
        assert(cs.last() == cs0[k - 1]);
        assert forall|i: int| j + 1 <= i < cs0.len() implies self.fat_entry(d2, #[trigger] cs0[i]) == self.fat_entry(d0, cs0[i]) by {
            assert(cs0[i] != c);
        }
        assert forall|i: int| k <= i < j + 1 implies self.fat_entry(d2, #[trigger] cs0[i]) == 0 by {
            if i < j {
                assert(cs0[i] != c);
            }
        }
    }
}

} // verus!
