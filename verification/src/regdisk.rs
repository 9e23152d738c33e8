use vstd::prelude::*;
use vstd::string::StringSliceAdditionalSpecFns;
use crate::block::{BlockDevice, Disk, disk_of, disk_put, healthy, read_sector, write_sector};
use crate::fsops::chunk;
use crate::bytes::{zeroes, put_bytes, slice_of};
use crate::fat32::{Fat32, DirEntry};
use crate::fsops::{first_named, find_named};
use crate::recovery::infos;
use crate::registry::{Registry, RegData, RegValue, parsed, serialized, reg_set, refresh_cache, lookup_u32, reg_lookup};
use crate::text::utf8_valid;

verus! {

/// The bytes of the registry file: its text, padded with line feeds.
pub const REG_CAPACITY: usize = 4096;

/// The first cluster of the registry file `RSYS/REGISTRY.DAT` of the volume `fat` on `disk`:
/// the first directory named `RSYS` in the root, in it the first file named `REGISTRY.DAT`
/// (ASCII case ignored), when its first cluster is a data cluster.
pub open spec fn reg_cluster_spec(fat: Fat32, disk: Disk) -> Option<u32> {
    match fat.dir_entries(disk, fat.root_cluster) {
        None => None,
        Some(root) => match first_named(root, "RSYS".spec_bytes(), 1) {
            None => None,
            Some(i) => match fat.dir_entries(disk, root[i].first_cluster) {
                None => None,
                Some(rs) => match first_named(rs, "REGISTRY.DAT".spec_bytes(), 2) {
                    None => None,
                    Some(j) => if rs[j].first_cluster >= 2 { Some(rs[j].first_cluster) } else { None },
                },
            },
        },
    }
}

/// The first cluster of the registry file: see `reg_cluster_spec`; refused when there is
/// none or a directory cannot be read.
pub fn find_reg_cluster<D: BlockDevice>(fat: &Fat32, dev: &mut D) -> (r: Result<u32, &'static str>)
    requires
        fat.wf(),
    ensures
        disk_of(final(dev)) == disk_of(old(dev)),
        r matches Ok(c) ==> reg_cluster_spec(*fat, disk_of(old(dev))) == Some(c),
        reg_cluster_spec(*fat, disk_of(old(dev))) is None ==> r is Err,
        healthy(old(dev), fat.bytes_per_sector as int) ==> healthy(final(dev), fat.bytes_per_sector as int),
        healthy(old(dev), fat.bytes_per_sector as int) && reg_cluster_spec(*fat, disk_of(old(dev))) is Some ==> r is Ok,
{
    let root = fat.list_root(dev)?;
    let i = match find_named(&root, "RSYS".as_bytes(), 1) {
        Some(i) => i,
        None => return Err("RSYS doesnt exist"),
    };
    let c = root[i].first_cluster;
    assert(infos(root@)[i as int].first_cluster == c);
    let entries = fat.list_dir(dev, c)?;
    let j = match find_named(&entries, "REGISTRY.DAT".as_bytes(), 2) {
        Some(j) => j,
        None => return Err("RSYS/REGISTRY.DAT doesnt exist"),
    };
    let rc = entries[j].first_cluster;
    assert(infos(entries@)[j as int].first_cluster == rc);
    if rc < 2 {
        return Err("registry cluster invalid");
    }
    Ok(rc)
}

/// Reads up to `REG_CAPACITY` bytes of the cluster chain from `cluster0`: block by block,
/// stopping at the end of the chain, at a block or FAT entry that cannot be read, or after 64
/// clusters; bytes not read stay zero.
pub fn load_data<D: BlockDevice>(fat: &Fat32, dev: &mut D, cluster0: u32) -> (r: Vec<u8>)
    requires
        fat.wf(),
    ensures
        disk_of(final(dev)) == disk_of(old(dev)),
        r@.len() == REG_CAPACITY,
        healthy(old(dev), fat.bytes_per_sector as int) ==> healthy(final(dev), fat.bytes_per_sector as int),
{
    let bps: usize = fat.bytes_per_sector as usize;
    let mut data = zeroes(REG_CAPACITY);
    let mut read: usize = 0;
    let mut cluster: u32 = cluster0;
    let mut guard: u32 = 0;
    while read < REG_CAPACITY
        invariant
            fat.wf(),
            bps == fat.bytes_per_sector,
            data@.len() == REG_CAPACITY,
            read <= REG_CAPACITY,
            guard <= 64,
            disk_of(dev) == disk_of(old(dev)),
            healthy(old(dev), fat.bytes_per_sector as int) ==> healthy(dev, fat.bytes_per_sector as int),
        decreases 64 - guard,
    {
        if cluster < 2 || cluster >= 0x0FFF_FFF8 {
            break;
        }
        let lba = fat.cluster_to_lba(cluster);
        let mut s: u32 = 0;
        let mut failed = false;
        while s < fat.sectors_per_cluster && !failed
            invariant
                fat.wf(),
                bps == fat.bytes_per_sector,
                data@.len() == REG_CAPACITY,
                read <= REG_CAPACITY,
                guard <= 64,
                lba <= 0x1_0000_0000 * 0x101,
                disk_of(dev) == disk_of(old(dev)),
                healthy(old(dev), fat.bytes_per_sector as int) ==> healthy(dev, fat.bytes_per_sector as int),
            decreases fat.sectors_per_cluster - s, if failed { 0int } else { 1int },
        {
            if read >= REG_CAPACITY {
                break;
            }
            let mut sec = zeroes(bps);
            if read_sector(dev, lba + s as u64, &mut sec).is_err() {
                failed = true;
            } else {
                let n: usize = if bps < REG_CAPACITY - read { bps } else { REG_CAPACITY - read };
                let part = slice_of(sec.as_slice(), 0, n);
                put_bytes(&mut data, read, part.as_slice());
                read = read + n;
                s = s + 1;
            }
        }
        cluster = match fat.next_cluster(dev, cluster) {
            Ok(v) => v,
            Err(_) => break,
        };
        if guard >= 64 {
            break;
        }
        guard = guard + 1;
    }
    data
}

/// Loads the registry from the volume: the registry file's first cluster (see
/// `find_reg_cluster`), and the entries parsed from its first `REG_CAPACITY` bytes (see
/// `load_data`), none when they are not UTF-8. Gives the file's first cluster.
pub fn load<D: BlockDevice>(reg: &mut Registry, fat: &Fat32, dev: &mut D) -> (r: Result<u32, &'static str>)
    requires
        fat.wf(),
    ensures
        disk_of(final(dev)) == disk_of(old(dev)),
        r is Err ==> final(reg)@ == old(reg)@,
        r matches Ok(c) ==> reg_cluster_spec(*fat, disk_of(old(dev))) == Some(c) && exists|d: Seq<u8>|
            d.len() == REG_CAPACITY && #[trigger] final(reg)@ == (if vstd::utf8::valid_utf8(d) { parsed(d) } else { parsed(seq![]) }),
        healthy(old(dev), fat.bytes_per_sector as int) ==> healthy(final(dev), fat.bytes_per_sector as int),
        healthy(old(dev), fat.bytes_per_sector as int) && reg_cluster_spec(*fat, disk_of(old(dev))) is Some ==> r is Ok,
{
    let cluster0 = find_reg_cluster(fat, dev)?;
    let data = load_data(fat, dev, cluster0);
    if utf8_valid(data.as_slice()) {
        reg.deserialize(data.as_slice());
    } else {
        let empty: Vec<u8> = Vec::new();
        reg.deserialize(empty.as_slice());
        assert(empty@ =~= seq![]);
    }
    Ok(cluster0)
}

/// The registry text as stored: `serialized`, padded with line feeds to `REG_CAPACITY`
/// bytes.
pub open spec fn padded_text(s: Seq<u8>) -> Seq<u8> {
    s + Seq::new((REG_CAPACITY - s.len()) as nat, |i: int| 10u8)
}

/// The registry text as stored: see `padded_text`; refused when the text is longer than
/// `REG_CAPACITY` bytes.
pub fn padded_registry(reg: &Registry) -> (r: Result<Vec<u8>, &'static str>)
    ensures
        serialized(reg@).len() > REG_CAPACITY <==> r is Err,
        r matches Ok(t) ==> t@ == padded_text(serialized(reg@)),
{
    let mut text = reg.serialize();
    if text.len() > REG_CAPACITY {
        return Err("Registry capacity exceeded 4KB");
    }
    let ghost s = text@;
    while text.len() < REG_CAPACITY
        invariant
            s.len() <= text@.len() <= REG_CAPACITY,
            text@ == s + Seq::new((text@.len() - s.len()) as nat, |i: int| 10u8),
        decreases REG_CAPACITY - text@.len(),
    {
        text.push(10u8);
        assert(text@ =~= s + Seq::new((text@.len() - s.len()) as nat, |i: int| 10u8));
    }
    Ok(text)
}

/// `disk` after the bytes of `data` from `w` on are written over blocks `s` on of the
/// cluster whose first block is `lba`, a block at a time (the last one padded with zeros),
/// until the cluster or the data runs out; with how far into `data` the writing got.
pub open spec fn save_blocks(fat: Fat32, disk: Disk, lba: int, data: Seq<u8>, w: int, s: int) -> (Disk, int)
    decreases fat.sectors_per_cluster - s,
{
    if s < 0 || s >= fat.sectors_per_cluster || w >= data.len() {
        (disk, w)
    } else {
        let end = if data.len() - w > fat.bytes_per_sector { w + fat.bytes_per_sector } else { data.len() as int };
        save_blocks(
            fat,
            disk_put(disk, (lba + s) as u64, chunk(data, w, fat.bytes_per_sector as nat)),
            lba,
            data,
            end,
            s + 1,
        )
    }
}

/// `disk` after `data`, from `w` on, is written along the cluster chain from `c` (see
/// `save_blocks`), the FAT entry of each cluster read once it is written; `None` when the
/// chain ends before the data does, or when a 65th cluster was written and the data goes on
/// (`g` clusters were written before).
pub open spec fn save_from(fat: Fat32, disk: Disk, c: u32, data: Seq<u8>, w: int, g: int) -> Option<Disk>
    decreases 64 - g,
{
    if w >= data.len() {
        Some(disk)
    } else if c < 2 || c >= 0x0FFF_FFF8 {
        None
    } else {
        let (d2, w2) = save_blocks(fat, disk, fat.lba_of(c), data, w, 0);
        if g >= 64 {
            None
        } else {
            save_from(fat, d2, fat.fat_entry(d2, c), data, w2, g + 1)
        }
    }
}

/// Saves the registry to its file: the padded text (see `padded_registry`) written block by
/// block over the file's cluster chain, from the cluster `cluster` remembers (looked up and
/// remembered when it holds none). Refused when the text does not fit, the file cannot be
/// found, blocks are not 512 to 4096 bytes, the chain ends early or runs past 64 clusters,
/// or a block cannot be written.
#[verifier::spinoff_prover]
#[verifier::rlimit(40)]
pub fn save<D: BlockDevice>(reg: &Registry, fat: &Fat32, dev: &mut D, cluster: &mut u32) -> (r: Result<(), &'static str>)
    requires
        fat.wf(),
    ensures
        serialized(reg@).len() > REG_CAPACITY ==> r is Err && disk_of(final(dev)) == disk_of(old(dev)),
        *old(cluster) < 2 && (r is Ok || *final(cluster) != *old(cluster)) ==> reg_cluster_spec(*fat, disk_of(old(dev))) == Some(*final(cluster)),
        *old(cluster) >= 2 ==> *final(cluster) == *old(cluster),
        r is Ok ==> save_from(*fat, disk_of(old(dev)), *final(cluster), padded_text(serialized(reg@)), 0, 0) == Some(
            disk_of(final(dev)),
        ),
        healthy(old(dev), fat.bytes_per_sector as int) ==> healthy(final(dev), fat.bytes_per_sector as int),
        healthy(old(dev), fat.bytes_per_sector as int) && serialized(reg@).len() <= REG_CAPACITY && 512 <= fat.bytes_per_sector <= 4096 && (*old(cluster) >= 2
            || reg_cluster_spec(*fat, disk_of(old(dev))) is Some) ==> (r is Ok <==> save_from(
            *fat,
            disk_of(old(dev)),
            *final(cluster),
            padded_text(serialized(reg@)),
            0,
            0,
        ) is Some),
{
    let data = padded_registry(reg)?;
    if *cluster < 2 {
        let c = find_reg_cluster(fat, dev)?;
        *cluster = c;
    }
    let ghost fixed = *cluster;
    let mut c = *cluster;
    let bps: usize = fat.bytes_per_sector as usize;
    if bps < 512 || bps > 4096 {
        return Err("invalid bps");
    }
    let mut written: usize = 0;
    let mut guard: u32 = 0;
    let ghost d0 = disk_of(dev);
    let ghost goal = save_from(*fat, d0, fixed, data@, 0, 0);
    while written < data.len()
        invariant
            fat.wf(),
            bps == fat.bytes_per_sector,
            512 <= bps <= 4096,
            data@.len() == REG_CAPACITY,
            data@ == padded_text(serialized(reg@)),
            written <= REG_CAPACITY,
            guard <= 64,
            serialized(reg@).len() <= REG_CAPACITY,
            *cluster == fixed,
            *old(cluster) < 2 ==> reg_cluster_spec(*fat, disk_of(old(dev))) == Some(fixed),
            *old(cluster) >= 2 ==> fixed == *old(cluster),
            healthy(old(dev), fat.bytes_per_sector as int) ==> healthy(dev, fat.bytes_per_sector as int),
            d0 == disk_of(old(dev)),
            goal == save_from(*fat, d0, fixed, data@, 0, 0),
            goal == save_from(*fat, disk_of(dev), c, data@, written as int, guard as int),
        decreases 64 - guard,
    {
        if c < 2 || c >= 0x0FFF_FFF8 {
            return Err("registry zinciri kisa");
        }
        let lba = fat.cluster_to_lba(c);
        let ghost dc = disk_of(dev);
        let ghost wc = written as int;
        let mut s: u32 = 0;
        while s < fat.sectors_per_cluster
            invariant
                fat.wf(),
                bps == fat.bytes_per_sector,
                512 <= bps <= 4096,
                data@.len() == REG_CAPACITY,
                written <= REG_CAPACITY,
                lba <= 0x1_0000_0000 * 0x101,
                lba == fat.lba_of(c),
                guard <= 64,
                serialized(reg@).len() <= REG_CAPACITY,
                *cluster == fixed,
                *old(cluster) < 2 ==> reg_cluster_spec(*fat, disk_of(old(dev))) == Some(fixed),
                *old(cluster) >= 2 ==> fixed == *old(cluster),
                healthy(old(dev), fat.bytes_per_sector as int) ==> healthy(dev, fat.bytes_per_sector as int),
                save_blocks(*fat, dc, lba as int, data@, wc, 0) == save_blocks(*fat, disk_of(dev), lba as int, data@, written as int, s as int),
            ensures
                written >= data@.len() || s >= fat.sectors_per_cluster,
            decreases fat.sectors_per_cluster - s,
        {
            if written >= data.len() {
                break;
            }
            let end: usize = if data.len() - written > bps { written + bps } else { data.len() };
            let mut sec = zeroes(bps);
            let part = slice_of(data.as_slice(), written, end);
            put_bytes(&mut sec, 0, part.as_slice());
            assert(sec@ =~= chunk(data@, written as int, bps as nat));
            write_sector(dev, lba + s as u64, sec.as_slice())?;
            written = end;
            s = s + 1;
        }
        let ghost dn = disk_of(dev);
        assert(save_blocks(*fat, dn, lba as int, data@, written as int, s as int) == (dn, written as int));
        assert(save_blocks(*fat, dc, lba as int, data@, wc, 0) == (dn, written as int));
        let ghost was = c;
        c = fat.next_cluster(dev, c)?;
        assert(c == fat.fat_entry(dn, was));
        assert(goal == (if guard >= 64 {
            None
        } else {
            save_from(*fat, dn, c, data@, written as int, guard + 1)
        }));
        if guard >= 64 {
            return Err("loop");
        }
        guard = guard + 1;
    }
    Ok(())
}

/// Sets the setting `path` to the number `val`, saves the registry (a failure to save is
/// ignored), and gives the settings the kernel caches anew (see `refresh_cache`).
pub fn set_u32<D: BlockDevice>(reg: &mut Registry, path: &[u8], val: u32, fat: &Fat32, dev: &mut D, cluster: &mut u32) -> (r: (u32, u32, u32))
    requires
        fat.wf(),
    ensures
        final(reg)@ == reg_set(old(reg)@, path@, RegValue::U32(val)),
        final(reg).dirty,
        healthy(old(dev), fat.bytes_per_sector as int) && serialized(final(reg)@).len() <= REG_CAPACITY
            && 512 <= fat.bytes_per_sector <= 4096 && (*old(cluster) >= 2 || reg_cluster_spec(*fat, disk_of(old(dev))) is Some)
            ==> match save_from(*fat, disk_of(old(dev)), *final(cluster), padded_text(serialized(final(reg)@)), 0, 0) {
            Some(d) => disk_of(final(dev)) == d,
            None => true,
        },
        r.0 == lookup_u32(final(reg)@, "Sistem/Masaustu/Renk".spec_bytes(), 0),
        r.1 == lookup_u32(final(reg)@, "Sistem/Taskbar/Renk".spec_bytes(), 0),
        r.2 == lookup_u32(
            final(reg)@,
            "Kullanicilar/".spec_bytes() + (match reg_lookup(final(reg)@, "Oturum/AktifKullanici".spec_bytes()) {
                Some(RegValue::Str(u)) => u,
                _ => "User".spec_bytes(),
            }) + "/Yetki".spec_bytes(),
            2,
        ),
{
    reg.set(path, RegData::U32(val));
    let cache = refresh_cache(reg);
    let _ = save(reg, fat, dev, cluster);
    cache
}

} // verus!
