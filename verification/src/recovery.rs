use vstd::prelude::*;
use vstd::string::StringSliceAdditionalSpecFns;
use crate::block::{BlockDevice, Disk, disk_of, disk_put, healthy, read_sector, write_sector};
use crate::bytes::{find_byte, le32_bytes, lemma_first_index, lemma_first_index_range, put_bytes, put_le32, slice_of, splice, zeroes};
use crate::fat32::{Fat32, DirEntry, DirInfo, lemma_entry_fits};
use crate::fsops::{
    chunk, first_named, find_named, find_record, lemma_first_named_range, name_83, name83_spec, new_record,
    next_slash, parts_from, record_at, slot_free, slot_named,
};
use crate::fat32::put_blocks;
use crate::fat32::max_chain;
use crate::fsops::{fat_covers, holds_run, run_body};
use crate::dir_frame::{free_set, lemma_free_set_pick};
use crate::recovery_frame::{lemma_run_step_set, lemma_run_close_set, lemma_dir_put_keeps_run, lemma_rec_stores, rec_ready, all_kept, lemma_entries_covered, lemma_recover_step, lemma_set_keeps, lemma_chain_kept, lemma_kept_not_full, lemma_unlinked_not_full};

verus! {

/// A part of the system that recovery can restore.
#[derive(Clone, Copy, PartialEq, Eq, Structural)]
pub enum Missing {
    Registry,
    CoreBin,
    DirUsers,
    DirDesktop,
    DirDocuments,
    DirDownloads,
}

/// The entries of a listing, as values.
pub open spec fn infos(es: Seq<DirEntry>) -> Seq<DirInfo> {
    es.map_values(|e: DirEntry| e@)
}

/// What is missing from a system volume whose `RSYS` directory holds the entries `rsys`:
/// the registry file and the core image, each when no file of its name is there.
pub open spec fn missing_in(rsys: Seq<DirInfo>) -> Seq<Missing> {
    (if first_named(rsys, "REGISTRY.DAT".spec_bytes(), 2) is None { seq![Missing::Registry] } else { seq![] })
        + (if first_named(rsys, "CORE.BIN".spec_bytes(), 2) is None { seq![Missing::CoreBin] } else { seq![] })
}

/// What is missing from the system volume `fat` on `disk`: both files when the root holds no
/// `RSYS` directory, else those that `RSYS` lacks (see `missing_in`); nothing is reported
/// when the root directory cannot be followed.
pub open spec fn missing_spec(fat: Fat32, disk: Disk) -> Seq<Missing> {
    match fat.dir_entries(disk, fat.root_cluster) {
        None => seq![],
        Some(root) => match first_named(root, "RSYS".spec_bytes(), 1) {
            None => seq![Missing::Registry, Missing::CoreBin],
            Some(i) => match fat.dir_entries(disk, root[i].first_cluster) {
                Some(rsys) => missing_in(rsys),
                None => seq![Missing::Registry, Missing::CoreBin],
            },
        },
    }
}

/// What is missing from the system volume `fat` on `dev`: see `missing_spec`. When the root
/// directory cannot be read nothing is reported, and when `RSYS` cannot be read both files
/// are.
pub fn check<D: BlockDevice>(fat: &Fat32, dev: &mut D) -> (r: Vec<Missing>)
    requires
        fat.wf(),
    ensures
        disk_of(final(dev)) == disk_of(old(dev)),
        r@ == missing_spec(*fat, disk_of(old(dev))) || r@ == Seq::<Missing>::empty() || r@ == seq![
            Missing::Registry,
            Missing::CoreBin,
        ],
        healthy(old(dev), fat.bytes_per_sector as int) ==> r@ == missing_spec(*fat, disk_of(old(dev))),
        fat.dir_entries(disk_of(old(dev)), fat.root_cluster) is None ==> r@ == Seq::<Missing>::empty(),
{
    let ghost disk = disk_of(dev);
    let mut miss: Vec<Missing> = Vec::new();
    let root = match fat.list_root(dev) {
        Ok(r) => r,
        Err(_) => return miss,
    };
    let rsys_at = find_named(&root, "RSYS".as_bytes(), 1);
    match rsys_at {
        None => {
            miss.push(Missing::Registry);
            miss.push(Missing::CoreBin);
            proof {
                assert(miss@ =~= seq![Missing::Registry, Missing::CoreBin]);
            }
        },
        Some(i) => {
            let c = root[i].first_cluster;
            match fat.list_dir(dev, c) {
                Ok(rsys) => {
                    let reg = find_named(&rsys, "REGISTRY.DAT".as_bytes(), 2);
                    let core = find_named(&rsys, "CORE.BIN".as_bytes(), 2);
                    if reg.is_none() {
                        miss.push(Missing::Registry);
                    }
                    if core.is_none() {
                        miss.push(Missing::CoreBin);
                    }
                    proof {
                        assert(root@[i as int]@.first_cluster == c);
                        assert(miss@ =~= missing_in(infos(rsys@)));
                    }
                },
                Err(_) => {
                    miss.push(Missing::Registry);
                    miss.push(Missing::CoreBin);
                    proof {
                        assert(miss@ =~= seq![Missing::Registry, Missing::CoreBin]);
                    }
                },
            }
        },
    }
    miss
}

} // verus!

verus! {

/// `disk` with the FAT entry of cluster `c` overwritten by all 32 bits of `v`, in the first
/// FAT and, when there are more, in the block one FAT size further on.
pub open spec fn fat_set(fat: Fat32, disk: Disk, c: u32, v: u32) -> Disk {
    let s = fat.fat_lba(c);
    let buf = splice(disk(s), fat.fat_off(c), le32_bytes(v));
    let d1 = disk_put(disk, s, buf);
    if fat.num_fats > 1 {
        disk_put(d1, (s + fat.fat_size_sectors) as u64, buf)
    } else {
        d1
    }
}

/// Writes `val` as the FAT entry of cluster `c`, mirrored to the second FAT when there is
/// one.
fn set_fat<D: BlockDevice>(fat: &Fat32, dev: &mut D, c: u32, val: u32) -> (r: Result<(), ()>)
    requires
        fat.wf(),
        c < 0x4000_0000,
    ensures
        r is Ok ==> disk_of(final(dev)) == fat_set(*fat, disk_of(old(dev)), c, val),
        healthy(old(dev), fat.bytes_per_sector as int) ==> r is Ok && healthy(final(dev), fat.bytes_per_sector as int),
{
    let off = c * 4;
    let sector = fat.fat_start_lba + (off / fat.bytes_per_sector) as u64;
    let o = (off % fat.bytes_per_sector) as usize;
    proof {
        lemma_entry_fits(c as int, fat.bytes_per_sector as int);
    }
    let mut buf = zeroes(fat.bytes_per_sector as usize);
    if read_sector(dev, sector, &mut buf).is_err() {
        return Err(());
    }
    put_le32(&mut buf, o, val);
    if write_sector(dev, sector, buf.as_slice()).is_err() {
        return Err(());
    }
    if fat.num_fats > 1 {
        let backup = sector + fat.fat_size_sectors as u64;
        if write_sector(dev, backup, buf.as_slice()).is_err() {
            return Err(());
        }
    }
    Ok(())
}

/// Takes the first free cluster from number 3 on, among the entries one FAT holds: marks it
/// as the end of a chain and zeroes its blocks.
fn alloc_cluster<D: BlockDevice>(fat: &Fat32, dev: &mut D) -> (r: Result<u32, ()>)
    requires
        fat.wf(),
    ensures
        r is Ok ==> ({
            let c = r->Ok_0;
            let disk = disk_of(old(dev));
            &&& 3 <= c < fat.fat_entries()
            &&& fat.fat_entry(disk, c) == 0
            &&& forall|j: u32| 3 <= j < c ==> fat.fat_entry(disk, j) != 0
            &&& disk_of(final(dev)) == fat.cluster_zeroed(fat_set(*fat, disk, c, 0x0FFF_FFFF), c)
        }),
        healthy(old(dev), fat.bytes_per_sector as int) ==> healthy(final(dev), fat.bytes_per_sector as int),
        healthy(old(dev), fat.bytes_per_sector as int) && (exists|j: u32|
            3 <= j < fat.fat_entries() && #[trigger] fat.fat_entry(disk_of(old(dev)), j) == 0) ==> r is Ok,
{
    let ghost disk = disk_of(dev);
    let total = fat.fat_size_sectors.wrapping_mul(fat.bytes_per_sector) / 4;
    let mut c: u32 = 3;
    while c < total
        invariant
            fat.wf(),
            disk_of(dev) == disk,
            disk == disk_of(old(dev)),
            total == fat.fat_entries(),
            healthy(old(dev), fat.bytes_per_sector as int) ==> healthy(dev, fat.bytes_per_sector as int),
            3 <= c,
            forall|j: u32| 3 <= j < c ==> fat.fat_entry(disk, j) != 0,
        decreases total - c,
    {
        let v = match fat.next_cluster(dev, c) {
            Ok(v) => v,
            Err(_) => return Err(()),
        };
        if v == 0 {
            set_fat(fat, dev, c, 0x0FFF_FFFF)?;
            if fat.zero_cluster(dev, c).is_err() {
                return Err(());
            }
            return Ok(c);
        }
        c = c + 1;
    }
    Err(())
}

/// The directory record of a new entry: `new_record` with the size in bytes 28..32.
pub open spec fn sized_record(sn: Seq<u8>, attr: u8, first: u32, size: u32) -> Seq<u8> {
    splice(new_record(sn, attr, first), 28, le32_bytes(size))
}

/// Whether `after` is `before` with `rec` written over a free record that a search of the
/// directory at `parent` along its first 129 clusters reaches.
pub open spec fn placed(fat: Fat32, before: Disk, after: Disk, parent: u32, rec: Seq<u8>) -> bool {
    exists|lba: u64, off: int|
        #[trigger] fat.dir_slot_in(before, parent, 129, lba, off) && slot_free(record_at(before(lba), off))
            && after == disk_put(before, lba, splice(before(lba), off, rec))
}

/// Whether `after` is `before` with a live record named `sn`, that a search of the directory
/// at `parent` along its first 129 clusters reaches, marked deleted.
pub open spec fn unlinked(fat: Fat32, before: Disk, after: Disk, parent: u32, sn: Seq<u8>) -> bool {
    exists|lba: u64, off: int|
        #[trigger] fat.dir_slot_in(before, parent, 129, lba, off) && slot_named(record_at(before(lba), off), sn)
            && after == disk_put(before, lba, before(lba).update(off, 0xE5))
}

/// Writes a new entry (name `sn`, attribute `attr`, first cluster `first`, size `size`) over
/// the first free record of the directory at `parent`.
fn insert_entry<D: BlockDevice>(fat: &Fat32, dev: &mut D, parent: u32, sn: [u8; 11], attr: u8, first: u32, size: u32) -> (r: Result<(), ()>)
    requires
        fat.wf(),
    ensures
        r is Ok ==> placed(*fat, disk_of(old(dev)), disk_of(final(dev)), parent, sized_record(sn@, attr, first, size)),
        healthy(old(dev), fat.bytes_per_sector as int) ==> healthy(final(dev), fat.bytes_per_sector as int),
        healthy(old(dev), fat.bytes_per_sector as int) && !fat.dir_full(disk_of(old(dev)), parent, 129) ==> r is Ok,
{
    let mut rec = zeroes(32);
    put_bytes(&mut rec, 0, sn.as_slice());
    rec.set(11, attr);
    crate::bytes::put_le16(&mut rec, 20, (first >> 16u32) as u16);
    crate::bytes::put_le16(&mut rec, 26, (first & 0xFFFF) as u16);
    assert((first >> 16u32) as u16 == (first / 0x1_0000) as u16) by (bit_vector);
    assert((first & 0xFFFF) as u16 == (first % 0x1_0000) as u16) by (bit_vector);
    put_le32(&mut rec, 28, size);
    assert(rec@ =~= sized_record(sn@, attr, first, size));
    match find_record(fat, dev, parent, &sn, true, 129) {
        Ok(Some((lba, off, mut blk))) => {
            let ghost b0 = blk@;
            put_bytes(&mut blk, off, rec.as_slice());
            if write_sector(dev, lba, blk.as_slice()).is_err() {
                return Err(());
            }
            assert(fat.dir_slot_in(disk_of(old(dev)), parent, 129, lba, off as int));
            assert(blk@ == splice(b0, off as int, rec@));
            Ok(())
        },
        _ => Err(()),
    }
}

/// Marks deleted the first live entry named `sn` in the directory at `parent`; finding none
/// is no error.
fn patch_delete<D: BlockDevice>(fat: &Fat32, dev: &mut D, parent: u32, sn: [u8; 11]) -> (r: Result<(), ()>)
    requires
        fat.wf(),
    ensures
        r is Ok ==> (disk_of(final(dev)) == disk_of(old(dev)) && fat.name_absent(disk_of(old(dev)), parent, 129, sn@))
            || unlinked(*fat, disk_of(old(dev)), disk_of(final(dev)), parent, sn@),
        healthy(old(dev), fat.bytes_per_sector as int) ==> r is Ok && healthy(final(dev), fat.bytes_per_sector as int),
{
    match find_record(fat, dev, parent, &sn, false, 129) {
        Err(_) => Err(()),
        Ok(None) => Ok(()),
        Ok(Some((lba, off, mut blk))) => {
            blk.set(off, 0xE5);
            if write_sector(dev, lba, blk.as_slice()).is_err() {
                return Err(());
            }
            assert(fat.dir_slot_in(disk_of(old(dev)), parent, 129, lba, off as int));
            Ok(())
        },
    }
}

} // verus!

verus! {

/// The directory that `path` names from the root of the volume, when every component of it
/// is already there.
pub open spec fn existing_dir(fat: Fat32, disk: Disk, path: Seq<u8>) -> Option<u32> {
    fat.walk(disk, fat.root_cluster, parts_from(path, 0))
}

/// Follows the `/`-separated components of `path` from the root, creating each directory
/// that is not there (a cleared cluster and an entry in its parent); returns the first
/// cluster of the last one. When every component is already there, nothing is written and
/// the result, if any, is that directory.
fn ensure_dirs<D: BlockDevice>(fat: &Fat32, dev: &mut D, path: &[u8]) -> (r: Result<u32, ()>)
    requires
        fat.wf(),
    ensures
        existing_dir(*fat, disk_of(old(dev)), path@) matches Some(t) ==> disk_of(final(dev)) == disk_of(old(dev))
            && (r is Ok ==> r->Ok_0 == t),
        healthy(old(dev), fat.bytes_per_sector as int) ==> healthy(final(dev), fat.bytes_per_sector as int),
        healthy(old(dev), fat.bytes_per_sector as int) && existing_dir(*fat, disk_of(old(dev)), path@) is Some ==> r is Ok,
{
    let ghost disk = disk_of(dev);
    let ghost all = existing_dir(*fat, disk, path@);
    let mut cluster = fat.root_cluster;
    let mut pos: usize = 0;
    let n = path.len();
    loop
        invariant
            fat.wf(),
            disk == disk_of(old(dev)),
            all == existing_dir(*fat, disk, path@),
            n == path@.len(),
            pos <= n,
            all is Some ==> disk_of(dev) == disk && all == fat.walk(disk, cluster, parts_from(path@, pos as int)),
            healthy(old(dev), fat.bytes_per_sector as int) ==> healthy(dev, fat.bytes_per_sector as int),
        decreases n - pos,
    {
        let j = find_byte(path, pos, n, 47);
        proof {
            let t = path@.subrange(pos as int, n as int);
            lemma_first_index_range(t, 47);
            lemma_first_index(t, 47, j - pos);
            assert(next_slash(path@, pos as int) == j);
        }
        let ghost rest = if j < n { parts_from(path@, j + 1) } else { Seq::<Seq<u8>>::empty() };
        let ghost before = cluster;
        if j > pos {
            let part = slice_of(path, pos, j);
            proof {
                assert(parts_from(path@, pos as int) == seq![part@] + rest);
                assert((seq![part@] + rest).subrange(1, (seq![part@] + rest).len() as int) =~= rest);
            }
            let entries = match fat.list_dir(dev, cluster) {
                Ok(es) => es,
                Err(_) => return Err(()),
            };
            match find_named(&entries, part.as_slice(), 1) {
                Some(i) => {
                    proof {
                        lemma_first_named_range(entries@.map_values(|e: DirEntry| e@), part@, 1);
                    }
                    cluster = entries[i].first_cluster;
                    assert(all is Some ==> all == fat.walk(disk, cluster, rest));
                },
                None => {
                    assert(all is None);
                    let nc = alloc_cluster(fat, dev)?;
                    let sn = match name_83(part.as_slice()) {
                        Some(sn) => sn,
                        None => return Err(()),
                    };
                    insert_entry(fat, dev, cluster, sn, 0x10, nc, 0)?;
                    cluster = nc;
                },
            }
        }
        if j >= n {
            assert(all is Some ==> fat.walk(disk, cluster, Seq::<Seq<u8>>::empty()) == Some(cluster));
            return Ok(cluster);
        }
        pos = j + 1;
    }
}

} // verus!

verus! {

/// Writes one cluster's worth of `data` starting at byte `base`, block by block, the last
/// block padded with zeros.
fn write_piece<D: BlockDevice>(fat: &Fat32, dev: &mut D, c: u32, data: &[u8], base: usize) -> (r: Result<(), ()>)
    requires
        fat.wf(),
        c >= 2,
        base <= data@.len(),
    ensures
        r is Ok ==> disk_of(final(dev)) == fat.cluster_put(
            disk_of(old(dev)),
            c,
            chunk(data@, base as int, fat.cluster_bytes()),
        ),
        healthy(old(dev), fat.bytes_per_sector as int) ==> r is Ok && healthy(final(dev), fat.bytes_per_sector as int),
{
    let lba = fat.cluster_to_lba(c);
    let bps = fat.bytes_per_sector as usize;
    let len = data.len();
    let ghost whole = chunk(data@, base as int, fat.cluster_bytes());
    let mut s: u32 = 0;
    while s < fat.sectors_per_cluster
        invariant
            fat.wf(),
            lba <= 0x1_0000_0000 * 0x101,
            lba == fat.lba_of(c),
            bps == fat.bytes_per_sector,
            len == data@.len(),
            base <= len,
            s <= fat.sectors_per_cluster,
            whole == chunk(data@, base as int, fat.cluster_bytes()),
            disk_of(dev) == put_blocks(disk_of(old(dev)), lba as int, whole, bps as nat, s as nat),
            healthy(old(dev), fat.bytes_per_sector as int) ==> healthy(dev, fat.bytes_per_sector as int),
        decreases fat.sectors_per_cluster - s,
    {
        let mut sec = zeroes(bps);
        assert(s as int * bps as int <= 0xFF * 0xFFFF) by (nonlinear_arith)
            requires
                s <= 0xFF,
                bps <= 0xFFFF,
        ;
        let skip = s as usize * bps;
        let rem = len - base;
        if skip < rem {
            let start = base + skip;
            let end = if rem - skip < bps {
                len
            } else {
                start + bps
            };
            let piece = slice_of(data, start, end);
            put_bytes(&mut sec, 0, piece.as_slice());
        }
        proof {
            assert(fat.cluster_bytes() == fat.sectors_per_cluster * bps);
            assert((s + 1) * bps <= fat.sectors_per_cluster * bps) by (nonlinear_arith)
                requires
                    s < fat.sectors_per_cluster,
            ;
            assert((s + 1) * bps == s * bps + bps) by (nonlinear_arith);
            assert(sec@ =~= whole.subrange(s * bps, (s + 1) * bps as int));
        }
        if write_sector(dev, lba + s as u64, sec.as_slice()).is_err() {
            return Err(());
        }
        assert((s + 1) * bps == s * bps + bps) by (nonlinear_arith);
        s = s + 1;
    }
    Ok(())
}

/// Stores `data` as the file `name` in the directory at `dir_cluster`: the data goes to
/// newly taken clusters chained in the FAT, an old file of that name is unlinked, and a new
/// entry (attribute 0x20, the first cluster, the size) is added. A name that has no 8.3
/// form is refused before anything is written.
fn write_file<D: BlockDevice>(fat: &Fat32, dev: &mut D, dir_cluster: u32, name: &[u8], data: &[u8]) -> (r: Result<(), ()>)
    requires
        fat.wf(),
    ensures
        name83_spec(name@) is None ==> r is Err && disk_of(final(dev)) == disk_of(old(dev)),
        r is Ok ==> exists|mid: Disk, first: u32|
            (data@.len() == 0 ==> first == 0) && #[trigger] placed(
                *fat,
                mid,
                disk_of(final(dev)),
                dir_cluster,
                sized_record(name83_spec(name@)->Some_0, 0x20, first, data@.len() as u32),
            ),
        healthy(old(dev), fat.bytes_per_sector as int) ==> healthy(final(dev), fat.bytes_per_sector as int),
        healthy(old(dev), fat.bytes_per_sector as int) && data@.len() == 0 && name83_spec(name@) is Some && (fat.dir_entries(disk_of(old(dev)), dir_cluster) matches Some(es)
            && first_named(es, name@, 2) is None) && !fat.dir_full(disk_of(old(dev)), dir_cluster, 129) ==> r is Ok,
        rec_ready(*fat, disk_of(old(dev)), dir_cluster, name@, data@.len() as int) && healthy(old(dev), fat.bytes_per_sector as int)
            ==> r is Ok,
        rec_ready(*fat, disk_of(old(dev)), dir_cluster, name@, data@.len() as int) && healthy(old(dev), fat.bytes_per_sector as int)
            && fat_covers(*fat, fat.fat_entries()) && 0 < data@.len() <= max_chain() * fat.cluster_bytes() ==> exists|mid: Disk, first: u32|
            #[trigger] placed(
                *fat,
                mid,
                disk_of(final(dev)),
                dir_cluster,
                sized_record(name83_spec(name@)->Some_0, 0x20, first, data@.len() as u32),
            ) && fat.stores(disk_of(final(dev)), first, data@),
{
    let sn = match name_83(name) {
        Some(sn) => sn,
        None => return Err(()),
    };
    let ghost d0 = disk_of(dev);
    let ghost good = rec_ready(*fat, d0, dir_cluster, name@, data@.len() as int) && healthy(old(dev), fat.bytes_per_sector as int);
    let ghost ws = fat.dir_walk(d0, dir_cluster, 129);
    let ghost vs = match fat.chain(d0, dir_cluster, max_chain()) {
        Some(cs) => cs,
        None => Seq::empty(),
    };
    let ghost top = fat.fat_entries();
    let ghost gd = good && fat_covers(*fat, top) && 0 < data@.len() <= max_chain() * fat.cluster_bytes();
    let ghost mut cs: Seq<u32> = Seq::empty();
    proof {
        lemma_entries_covered(*fat);
        reveal(holds_run);
        reveal(run_body);
    }
    let bps = fat.bytes_per_sector as usize;
    let spc = fat.sectors_per_cluster as usize;
    assert(bps * spc <= 0xFFFF * 0xFF) by (nonlinear_arith)
        requires
            bps <= 0xFFFF,
            spc <= 0xFF,
    ;
    assert(bps * spc >= 1) by (nonlinear_arith)
        requires
            bps >= 1,
            spc >= 1,
    ;
    let cbytes = bps * spc;
    let len = data.len();
    assert(len % cbytes != 0 ==> len / cbytes < usize::MAX) by (nonlinear_arith)
        requires
            cbytes >= 1,
            len <= usize::MAX,
    ;
    let need = len / cbytes + if len % cbytes != 0 {
        1
    } else {
        0
    };
    assert(len == 0 ==> need == 0) by (nonlinear_arith)
        requires
            need == len / cbytes + if len % cbytes != 0 { 1int } else { 0int },
            cbytes >= 1,
    ;
    let mut first: u32 = 0;
    let mut prev: u32 = 0;
    let mut i: usize = 0;
    while i < need
        invariant
            fat.wf(),
            cbytes == bps * spc,
            1 <= cbytes,
            len == data@.len(),
            need == len / cbytes + if len % cbytes != 0 { 1int } else { 0int },
            i <= need,
            prev < 0x4000_0000,
            i == 0 ==> first == 0,
            name83_spec(name@) == Some(sn@),
            healthy(old(dev), fat.bytes_per_sector as int) ==> healthy(dev, fat.bytes_per_sector as int),
            i == 0 ==> disk_of(dev) == disk_of(old(dev)) && prev == 0,
            len == 0 ==> need == 0,
            cbytes == fat.cluster_bytes(),
            d0 == disk_of(old(dev)),
            good == (rec_ready(*fat, d0, dir_cluster, name@, data@.len() as int) && healthy(old(dev), fat.bytes_per_sector as int)),
            ws == fat.dir_walk(d0, dir_cluster, 129),
            vs == (match fat.chain(d0, dir_cluster, max_chain()) {
                Some(cs) => cs,
                None => Seq::empty(),
            }),
            top == fat.fat_entries(),
            top * 4 <= fat.fat_size_sectors * fat.bytes_per_sector,
            top <= 0x4000_0000,
            good ==> all_kept(*fat, d0, disk_of(dev), ws) && all_kept(*fat, d0, disk_of(dev), vs),
            good ==> (i > 0 ==> 3 <= prev < top && first != 0 && fat.fat_entry(disk_of(dev), prev) != 0 && (forall|j: int|
                0 <= j < ws.len() ==> #[trigger] ws[j] != prev) && (forall|j: int| 0 <= j < vs.len() ==> #[trigger] vs[j] != prev)),
            good ==> free_set(*fat, disk_of(dev), top).len() >= need - i,
            gd == (good && fat_covers(*fat, top) && 0 < data@.len() <= max_chain() * fat.cluster_bytes()),
            gd ==> holds_run(*fat, top, disk_of(dev), cs, data@) && cs.len() == i && (i > 0 ==> prev == cs.last() && first
                == cs[0]),
            gd ==> forall|k: int, j: int| 0 <= k < cs.len() && 0 <= j < ws.len() ==> #[trigger] ws[j] != #[trigger] cs[k],
        decreases need - i,
    {
        let ghost da = disk_of(dev);
        proof {
            if good {
                lemma_free_set_pick(*fat, da, top);
                assert forall|l: u64| #[trigger] da(l).len() == fat.bytes_per_sector by {
                    assert(dev.serves(l) && dev.sector(l).len() == fat.bytes_per_sector);
                }
            }
        }
        let c = alloc_cluster(fat, dev)?;
        let ghost db = disk_of(dev);
        proof {
            if good && i > 0 {
                assert(dev.serves(fat.fat_lba(prev)) && dev.sector(fat.fat_lba(prev)).len() == fat.bytes_per_sector);
                assert(prev != c);
            }
        }
        if first == 0 {
            first = c;
        } else {
            set_fat(fat, dev, prev, c)?;
        }
        let ghost d2 = disk_of(dev);
        assert(i * cbytes < len) by (nonlinear_arith)
            requires
                i < need,
                need == len / cbytes + if len % cbytes != 0 { 1int } else { 0int },
                cbytes >= 1,
        ;
        let base = i * cbytes;
        write_piece(fat, dev, c, data, base)?;
        proof {
            if good {
                lemma_recover_step(*fat, top, d0, ws, vs, da, d2, disk_of(dev), c, prev, i > 0, chunk(data@, base as int, fat.cluster_bytes()));
            }
            if gd {
                if i > 0 {
                    assert(db(fat.fat_lba(prev)).len() == fat.bytes_per_sector);
                }
                lemma_run_step_set(*fat, top, da, db, d2, disk_of(dev), cs, data@, c, prev, base as int);
            }
        }
        prev = c;
        i = i + 1;
        proof {
            cs = cs.push(c);
            if gd {
                assert(cs[0] == first);
                assert(cs.last() == prev);
            }
        }
    }
    assert(len == 0 ==> first == 0) by (nonlinear_arith)
        requires
            need == len / cbytes + if len % cbytes != 0 { 1int } else { 0int },
            cbytes >= 1,
            i == need,
            i == 0 ==> first == 0,
    ;
    let ghost de = disk_of(dev);
    proof {
        if good && prev != 0 {
            assert(dev.serves(fat.fat_lba(prev)) && dev.sector(fat.fat_lba(prev)).len() == fat.bytes_per_sector);
        }
    }
    if prev != 0 {
        set_fat(fat, dev, prev, 0x0FFF_FFFF)?;
    }
    proof {
        if good {
            if prev != 0 {
                lemma_set_keeps(*fat, top, d0, de, ws, prev, 0x0FFF_FFFF);
                lemma_set_keeps(*fat, top, d0, de, vs, prev, 0x0FFF_FFFF);
            }
            lemma_chain_kept(*fat, d0, disk_of(dev), dir_cluster);
        }
        if gd {
            assert(need > 0) by (nonlinear_arith)
                requires
                    need == len / cbytes + if len % cbytes != 0 { 1int } else { 0int },
                    cbytes >= 1,
                    len > 0,
            ;
            assert(prev != 0);
            lemma_run_close_set(*fat, top, de, disk_of(dev), cs, data@, prev);
        }
    }
    let entries = match fat.list_dir(dev, dir_cluster) {
        Ok(es) => es,
        Err(_) => return Err(()),
    };
    let ghost dk = disk_of(dev);
    if find_named(&entries, name, 2).is_some() {
        patch_delete(fat, dev, dir_cluster, sn)?;
    }
    let ghost mid = disk_of(dev);
    proof {
        if good {
            lemma_kept_not_full(*fat, d0, dk, dir_cluster);
            if mid != dk {
                lemma_unlinked_not_full(*fat, dk, mid, dir_cluster, sn@);
                if gd {
                    let (lba, off) = choose|lba: u64, off: int|
                        #[trigger] fat.dir_slot_in(dk, dir_cluster, 129, lba, off) && slot_named(record_at(dk(lba), off), sn@)
                            && mid == disk_put(dk, lba, dk(lba).update(off, 0xE5));
                    lemma_dir_put_keeps_run(*fat, top, dk, cs, data@, dir_cluster, lba, off, dk(lba).update(off, 0xE5));
                }
            }
        }
    }
    #[verifier::truncate]
    let size = len as u32;
    insert_entry(fat, dev, dir_cluster, sn, 0x20, first, size)?;
    assert(placed(*fat, mid, disk_of(dev), dir_cluster, sized_record(sn@, 0x20, first, size)));
    proof {
        if gd {
            let rec = sized_record(sn@, 0x20, first, size);
            let (lba, off) = choose|lba: u64, off: int|
                #[trigger] fat.dir_slot_in(mid, dir_cluster, 129, lba, off) && slot_free(record_at(mid(lba), off))
                    && disk_of(dev) == disk_put(mid, lba, splice(mid(lba), off, rec));
            lemma_dir_put_keeps_run(*fat, top, mid, cs, data@, dir_cluster, lba, off, splice(mid(lba), off, rec));
            lemma_rec_stores(*fat, top, disk_of(dev), cs, data@, cbytes as int, need as int);
        }
    }
    assert(name83_spec(name@)->Some_0 == sn@);
    assert(size == data@.len() as u32);
    assert((data@.len() == 0 ==> first == 0) && placed(
        *fat,
        mid,
        disk_of(dev),
        dir_cluster,
        sized_record(name83_spec(name@)->Some_0, 0x20, first, data@.len() as u32),
    ));
    Ok(())
}

} // verus!

verus! {

/// Whether the file `file` of `len` bytes can be restored into `RSYS` on `disk`: the
/// directory is there and the recovery writer has what it needs there (see `rec_ready`).
pub open spec fn can_restore(fat: Fat32, disk: Disk, file: Seq<u8>, len: int) -> bool {
    existing_dir(fat, disk, "RSYS".spec_bytes()) matches Some(rsys) && rec_ready(fat, disk, rsys, file, len)
}

/// Whether `after` holds `data` as the file `file` of `RSYS` (as `RSYS` is on `before`): a new
/// record of that name, with the data's size and a first cluster, was put in the directory,
/// and the chain from that cluster stores the data.
pub open spec fn restored(fat: Fat32, before: Disk, after: Disk, file: Seq<u8>, data: Seq<u8>) -> bool {
    existing_dir(fat, before, "RSYS".spec_bytes()) matches Some(rsys) && exists|mid: Disk, first: u32|
        #[trigger] placed(fat, mid, after, rsys, sized_record(name83_spec(file)->Some_0, 0x20, first, data.len() as u32))
            && fat.stores(after, first, data)
}

/// Whether `m` is in `missing`.
fn lists(missing: &[Missing], m: Missing) -> (r: bool)
    ensures
        r == missing@.contains(m),
{
    let mut i: usize = 0;
    while i < missing.len()
        invariant
            i <= missing@.len(),
            forall|k: int| 0 <= k < i ==> missing@[k] != m,
        decreases missing@.len() - i,
    {
        if missing[i] == m {
            return true;
        }
        i = i + 1;
    }
    false
}

/// Restores the system volume `fat` on `dev`: makes sure `RSYS` exists; when a user
/// directory is listed in `missing`, creates `Users/Shared` and the three folders of
/// `Users/User`; writes `reg_text` as `RSYS/REGISTRY.DAT` when the registry is listed and
/// `core` as `RSYS/CORE.BIN` when the core image is. Returns whether every step that
/// counts succeeded (the `Users/Shared` step does not count); an empty core image is a
/// failure. With nothing listed on a volume that has `RSYS`, nothing is written.
pub fn repair<D: BlockDevice>(missing: &[Missing], fat: &Fat32, dev: &mut D, reg_text: &[u8], core: &[u8]) -> (ok: bool)
    requires
        fat.wf(),
    ensures
        missing@.contains(Missing::CoreBin) && core@.len() == 0 ==> !ok,
        healthy(old(dev), fat.bytes_per_sector as int) ==> healthy(final(dev), fat.bytes_per_sector as int),
        healthy(old(dev), fat.bytes_per_sector as int) && missing@.len() == 0 && existing_dir(*fat, disk_of(old(dev)), "RSYS".spec_bytes()) is Some ==> ok,
        healthy(old(dev), fat.bytes_per_sector as int) && !missing@.contains(Missing::Registry) && !missing@.contains(Missing::CoreBin)
            && existing_dir(*fat, disk_of(old(dev)), "RSYS".spec_bytes()) is Some
            && existing_dir(*fat, disk_of(old(dev)), "Users/Shared".spec_bytes()) is Some
            && existing_dir(*fat, disk_of(old(dev)), "Users/User/Desktop".spec_bytes()) is Some
            && existing_dir(*fat, disk_of(old(dev)), "Users/User/Documents".spec_bytes()) is Some
            && existing_dir(*fat, disk_of(old(dev)), "Users/User/Downloads".spec_bytes()) is Some ==> ok && disk_of(final(dev))
            == disk_of(old(dev)),
        missing@.len() == 0 && existing_dir(*fat, disk_of(old(dev)), "RSYS".spec_bytes()) is Some ==> disk_of(
            final(dev),
        ) == disk_of(old(dev)),
        healthy(old(dev), fat.bytes_per_sector as int) && missing@.contains(Missing::Registry) && (forall|k: int|
            0 <= k < missing@.len() ==> #[trigger] missing@[k] is Registry) && can_restore(
            *fat,
            disk_of(old(dev)),
            "REGISTRY.DAT".spec_bytes(),
            reg_text@.len() as int,
        ) ==> ok,
        healthy(old(dev), fat.bytes_per_sector as int) && missing@.contains(Missing::CoreBin) && (forall|k: int|
            0 <= k < missing@.len() ==> #[trigger] missing@[k] is CoreBin) && core@.len() > 0 && can_restore(
            *fat,
            disk_of(old(dev)),
            "CORE.BIN".spec_bytes(),
            core@.len() as int,
        ) ==> ok,
        healthy(old(dev), fat.bytes_per_sector as int) && missing@.contains(Missing::Registry) && (forall|k: int|
            0 <= k < missing@.len() ==> #[trigger] missing@[k] is Registry) && can_restore(
            *fat,
            disk_of(old(dev)),
            "REGISTRY.DAT".spec_bytes(),
            reg_text@.len() as int,
        ) && fat_covers(*fat, fat.fat_entries()) && 0 < reg_text@.len() <= max_chain() * fat.cluster_bytes() ==> restored(
            *fat,
            disk_of(old(dev)),
            disk_of(final(dev)),
            "REGISTRY.DAT".spec_bytes(),
            reg_text@,
        ),
        healthy(old(dev), fat.bytes_per_sector as int) && missing@.contains(Missing::CoreBin) && (forall|k: int|
            0 <= k < missing@.len() ==> #[trigger] missing@[k] is CoreBin) && can_restore(
            *fat,
            disk_of(old(dev)),
            "CORE.BIN".spec_bytes(),
            core@.len() as int,
        ) && fat_covers(*fat, fat.fat_entries()) && 0 < core@.len() <= max_chain() * fat.cluster_bytes() ==> restored(
            *fat,
            disk_of(old(dev)),
            disk_of(final(dev)),
            "CORE.BIN".spec_bytes(),
            core@,
        ),
{
    let mut all_ok = true;
    if ensure_dirs(fat, dev, "RSYS".as_bytes()).is_err() {
        all_ok = false;
    }
    let mut wants_dirs = false;
    let mut i: usize = 0;
    while i < missing.len()
        invariant
            i <= missing@.len(),
            wants_dirs == exists|k: int|
                0 <= k < i && !(#[trigger] missing@[k] is Registry) && !(missing@[k] is CoreBin),
        decreases missing@.len() - i,
    {
        match missing[i] {
            Missing::Registry | Missing::CoreBin => {},
            _ => {
                wants_dirs = true;
            },
        }
        i = i + 1;
    }
    if wants_dirs {
        let _ = ensure_dirs(fat, dev, "Users/Shared".as_bytes());
        if ensure_dirs(fat, dev, "Users/User/Desktop".as_bytes()).is_err() {
            all_ok = false;
        }
        if ensure_dirs(fat, dev, "Users/User/Documents".as_bytes()).is_err() {
            all_ok = false;
        }
        if ensure_dirs(fat, dev, "Users/User/Downloads".as_bytes()).is_err() {
            all_ok = false;
        }
    }
    if lists(missing, Missing::Registry) {
        match ensure_dirs(fat, dev, "RSYS".as_bytes()) {
            Ok(rsys) => {
                if write_file(fat, dev, rsys, "REGISTRY.DAT".as_bytes(), reg_text).is_err() {
                    all_ok = false;
                }
            },
            Err(_) => {
                all_ok = false;
            },
        }
    }
    if lists(missing, Missing::CoreBin) {
        if core.len() == 0 {
            all_ok = false;
        } else {
            match ensure_dirs(fat, dev, "RSYS".as_bytes()) {
                Ok(rsys) => {
                    if write_file(fat, dev, rsys, "CORE.BIN".as_bytes(), core).is_err() {
                        all_ok = false;
                    }
                },
                Err(_) => {
                    all_ok = false;
                },
            }
        }
    }
    all_ok
}

} // verus!

