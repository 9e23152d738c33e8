use vstd::prelude::*;
use crate::block::{Disk, disk_put};
use crate::fsops::{meta_fn, slot_named, record_at};
use crate::bytes::splice;
use crate::fat32::{Fat32, is_chain_end, max_chain, truncated, patch_record, lemma_cluster_put_keeps_entry, lemma_cluster_write_keeps_others, lemma_blocks_same, DirInfo};

verus! {

/// A file written by `Fat32::write_file` reads back as the data written: the chain stored
/// before the directory record was patched still holds the data once it is patched, provided
/// the file's clusters lie within what the FAT covers and none of them belongs to the
/// directory. `Fat32::read_file` then gives back exactly the data (its chain cut to the
/// recorded size).
pub proof fn lemma_write_then_read(fat: Fat32, mid: Disk, after: Disk, dir: u32, name: Seq<u8>, first: u32, data: Seq<u8>)
    requires
        fat.wf(),
        fat.regions_ok(),
        fat.stores(mid, first, data),
        fat.dir_patched(mid, after, dir, name, data.len() as u32, first),
        fat.chain(mid, first, max_chain()) matches Some(cs) && forall|i: int|
            0 <= i < cs.len() ==> (#[trigger] cs[i]) as int * 4 < fat.fat_size_sectors * fat.bytes_per_sector,
        fat.chain(mid, dir, max_chain()) matches Some(ds) && fat.chain(mid, first, max_chain()) matches Some(cs)
            && forall|i: int, j: int| 0 <= i < ds.len() && 0 <= j < cs.len() ==> ds[i] != cs[j],
    ensures
        fat.chain(after, first, max_chain()) == fat.chain(mid, first, max_chain()),
        fat.stores(after, first, data),
        fat.chain(after, first, max_chain()) matches Some(cs) && truncated(fat.chain_data(after, cs), data.len() as int)
            == data,
{
    let cs = fat.chain(mid, first, max_chain())->Some_0;
    let ds = fat.chain(mid, dir, max_chain())->Some_0;
    let (dcs, ci, k) = choose|dcs: Seq<u32>, ci: int, k: int|
        #![trigger fat.first_match_at(mid, dcs, ci, k, dir, name)]
        fat.chain(mid, dir, max_chain()) == Some(dcs) && fat.first_match_at(mid, dcs, ci, k, dir, name) && after
            == fat.cluster_put(
            mid,
            dcs[ci],
            patch_record(fat.cluster_data(mid, dcs[ci]), k, data.len() as u32, first),
        );
    assert(dcs == ds);
    let c = ds[ci];
    let piece = patch_record(fat.cluster_data(mid, c), k, data.len() as u32, first);
    fat.lemma_chain_links(mid, dir, max_chain());
    fat.lemma_chain_links(mid, first, max_chain());
    assert(c >= 2) by {
        assert(!is_chain_end(ds[ci]));
    }
    assert forall|j: int| 0 <= j < cs.len() implies fat.fat_entry(after, #[trigger] cs[j]) == fat.fat_entry(mid, cs[j]) by {
        lemma_cluster_put_keeps_entry(fat, mid, c, piece, cs[j]);
    }
    assert forall|j: int| 0 <= j < cs.len() implies fat.cluster_data(after, #[trigger] cs[j]) == fat.cluster_data(mid, cs[j]) by {
        assert(!is_chain_end(cs[j]));
        assert(ds[ci] != cs[j]);
        lemma_cluster_write_keeps_others(fat, mid, c, piece, cs[j]);
    }
    lemma_chain_same(fat, mid, after, first, max_chain());
    lemma_chain_data_same(fat, mid, after, cs);
}

/// A chain reads the same on a disk whose FAT entries for the clusters of the chain are the
/// same.
pub proof fn lemma_chain_same(fat: Fat32, d1: Disk, d2: Disk, c: u32, f: nat)
    requires
        fat.chain(d1, c, f) matches Some(cs) && forall|j: int| 0 <= j < cs.len() ==> fat.fat_entry(d2, #[trigger] cs[j]) == fat.fat_entry(d1, cs[j]),
    ensures
        fat.chain(d2, c, f) == fat.chain(d1, c, f),
    decreases f,
{
    if !is_chain_end(c) && f > 0 {
        let cs = fat.chain(d1, c, f)->Some_0;
        let n = fat.fat_entry(d1, c);
        let rest = fat.chain(d1, n, (f - 1) as nat)->Some_0;
        assert(cs == seq![c] + rest);
        assert(cs[0] == c);
        assert(fat.fat_entry(d2, c) == n);
        assert forall|j: int| 0 <= j < rest.len() implies fat.fat_entry(d2, #[trigger] rest[j]) == fat.fat_entry(d1, rest[j]) by {
            assert(rest[j] == cs[j + 1]);
        }
        lemma_chain_same(fat, d1, d2, n, (f - 1) as nat);
    }
}

/// The bytes of a list of clusters are the same on a disk where each of them holds the same
/// bytes.
proof fn lemma_chain_data_same(fat: Fat32, d1: Disk, d2: Disk, cs: Seq<u32>)
    requires
        forall|j: int| 0 <= j < cs.len() ==> fat.cluster_data(d2, #[trigger] cs[j]) == fat.cluster_data(d1, cs[j]),
    ensures
        fat.chain_data(d2, cs) == fat.chain_data(d1, cs),
    decreases cs.len(),
{
    if cs.len() > 0 {
        let p = cs.drop_last();
        assert forall|j: int| 0 <= j < p.len() implies fat.cluster_data(d2, #[trigger] p[j]) == fat.cluster_data(d1, p[j]) by {
            assert(p[j] == cs[j]);
        }
        lemma_chain_data_same(fat, d1, d2, p);
        assert(cs.last() == cs[cs.len() - 1]);
    }
}

/// A file the system-call layer stored reads back as the data stored once its directory
/// record is given the size and first cluster: the chain that held the data before the record
/// was patched still holds it after, provided the patched directory block is neither one of
/// the file's blocks nor a FAT block holding one of its entries.
pub proof fn lemma_stored_then_read(fat: Fat32, mid: Disk, after: Disk, pc: u32, sn: Seq<u8>, first: u32, data: Seq<u8>)
    requires
        fat.wf(),
        fat.patched(mid, after, pc, sn, meta_fn(data.len() as u32, first)),
        fat.file_data(mid, DirInfo { name: Seq::empty(), is_dir: false, size: data.len() as u32, first_cluster: first, parent_cluster: pc })
            == Some(data),
        fat.chain(mid, first, max_chain()) matches Some(cs) && forall|lba: u64, off: int, j: int|
            #[trigger] fat.dir_slot(mid, pc, lba, off) && 0 <= j < cs.len() ==> lba != fat.fat_lba(#[trigger] cs[j]) && (lba
                < fat.lba_of(cs[j]) || lba >= fat.lba_of(cs[j]) + fat.sectors_per_cluster),
    ensures
        fat.file_data(after, DirInfo { name: Seq::empty(), is_dir: false, size: data.len() as u32, first_cluster: first, parent_cluster: pc })
            == Some(data),
{
    let cs = fat.chain(mid, first, max_chain())->Some_0;
    fat.lemma_chain_links(mid, first, max_chain());
    let (lba, off) = choose|lba: u64, off: int|
        #[trigger] fat.dir_slot(mid, pc, lba, off) && slot_named(record_at(mid(lba), off), sn)
            && after == disk_put(mid, lba, splice(mid(lba), off, meta_fn(data.len() as u32, first)(record_at(mid(lba), off))));
    assert forall|j: int| 0 <= j < cs.len() implies fat.fat_entry(after, #[trigger] cs[j]) == fat.fat_entry(mid, cs[j]) by {
        assert(lba != fat.fat_lba(cs[j]));
    }
    assert forall|j: int| 0 <= j < cs.len() implies fat.cluster_data(after, #[trigger] cs[j]) == fat.cluster_data(mid, cs[j]) by {
        assert(lba < fat.lba_of(cs[j]) || lba >= fat.lba_of(cs[j]) + fat.sectors_per_cluster);
        assert(!is_chain_end(cs[j]));
        assert forall|k: int| 0 <= k < fat.sectors_per_cluster implies #[trigger] after((fat.lba_of(cs[j]) + k) as u64) == mid(
            (fat.lba_of(cs[j]) + k) as u64,
        ) by {
            fat.lemma_lba_of_bound(cs[j]);
        }
        lemma_blocks_same(after, mid, fat.lba_of(cs[j]), fat.sectors_per_cluster as nat);
    }
    lemma_chain_same(fat, mid, after, first, max_chain());
    lemma_chain_data_same(fat, mid, after, cs);
}

} // verus!
