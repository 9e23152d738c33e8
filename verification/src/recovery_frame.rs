use vstd::prelude::*;
use crate::block::{Disk, disk_put};
use crate::bytes::{splice, le32, le32_bytes};
use crate::fat32::{Fat32, max_chain, is_chain_end, put_blocks, lemma_fat_block_low, lemma_blocks_same, lemma_cluster_write_keeps_others, lemma_entry_fits, lemma_le32_splice, lemma_le32_splice_other, lemma_put_blocks_outside, lemma_cluster_put_keeps_entry};
use crate::fat32_laws::lemma_chain_same;
use crate::fsops::{record_at, slot_free, run_body, holds_run, fat_covers, lemma_top_fits, chunk, lemma_run_fill, lemma_run_chain, lemma_run_data, lemma_chunk_cut};
use crate::dir_frame::{free_set, lemma_free_set_shrink, lemma_cluster_blocks_apart, lemma_walk_elems, lemma_walk_same};
use crate::recovery::{fat_set, unlinked};
use crate::fsops::{name83_spec, slot_named};

verus! {

/// Whether every cluster of `ws` is a cluster number whose entry the first FAT covers.
pub open spec fn all_covered(fat: Fat32, ws: Seq<u32>) -> bool {
    forall|j: int| 0 <= j < ws.len() ==> !is_chain_end(#[trigger] ws[j]) && (ws[j] as int) * 4 < fat.fat_size_sectors
        * fat.bytes_per_sector
}

/// Whether every cluster of `ws` is in use on `disk`.
pub open spec fn all_busy(fat: Fat32, disk: Disk, ws: Seq<u32>) -> bool {
    forall|j: int| 0 <= j < ws.len() ==> fat.fat_entry(disk, #[trigger] ws[j]) != 0
}

/// Whether `d2` keeps, for each cluster of `ws`, its FAT entry and its blocks on `d1`.
pub open spec fn all_kept(fat: Fat32, d1: Disk, d2: Disk, ws: Seq<u32>) -> bool {
    forall|j: int| 0 <= j < ws.len() ==> {
        let w = #[trigger] ws[j];
        &&& fat.fat_entry(d2, w) == fat.fat_entry(d1, w)
        &&& forall|k: int| 0 <= k < fat.sectors_per_cluster ==> #[trigger] d2((fat.lba_of(w) + k) as u64) == d1(
            (fat.lba_of(w) + k) as u64,
        )
    }
}

/// Overwriting the entry of cluster `c` keeps the entry of every other cluster the FAT covers.
pub proof fn lemma_fat_set_keeps_others(fat: Fat32, d: Disk, c: u32, v: u32, c2: u32)
    requires
        fat.wf(),
        c < 0x4000_0000,
        c2 < 0x4000_0000,
        c2 != c,
        d(fat.fat_lba(c)).len() == fat.bytes_per_sector,
        c2 * 4 < fat.fat_size_sectors * fat.bytes_per_sector,
    ensures
        fat.fat_entry(fat_set(fat, d, c, v), c2) == fat.fat_entry(d, c2),
{
    let bps = fat.bytes_per_sector as int;
    lemma_entry_fits(c as int, bps);
    lemma_entry_fits(c2 as int, bps);
    let s = fat.fat_lba(c);
    let s2 = fat.fat_lba(c2);
    let off = fat.fat_off(c);
    let off2 = fat.fat_off(c2);
    let blk = d(s);
    let buf = splice(blk, off, le32_bytes(v));
    vstd::arithmetic::div_mod::lemma_fundamental_div_mod(c as int * 4, bps);
    vstd::arithmetic::div_mod::lemma_fundamental_div_mod(c2 as int * 4, bps);
    assert((c2 as int * 4) / bps < fat.fat_size_sectors) by (nonlinear_arith)
        requires
            c2 as int * 4 == bps * ((c2 as int * 4) / bps) + (c2 as int * 4) % bps,
            (c2 as int * 4) % bps >= 0,
            c2 as int * 4 < fat.fat_size_sectors * bps,
            bps > 0,
    ;
    assert((c as int * 4) / bps >= 0) by (nonlinear_arith)
        requires
            bps > 0,
            c >= 0,
    ;
    assert(s2 != s + fat.fat_size_sectors);
    if s2 == s {
        assert((c as int * 4) / bps == (c2 as int * 4) / bps);
        assert(off != off2);
        assert(off2 + 4 <= off || off + 4 <= off2);
        lemma_le32_splice_other(blk, off, v, off2);
        assert(fat_set(fat, d, c, v)(s2) == buf);
    } else {
        assert(fat_set(fat, d, c, v)(s2) == d(s2));
    }
}

/// An overwritten entry reads back as the low 28 bits of what was written.
pub proof fn lemma_fat_set_reads(fat: Fat32, d: Disk, c: u32, v: u32)
    requires
        fat.wf(),
        c < 0x4000_0000,
        d(fat.fat_lba(c)).len() == fat.bytes_per_sector,
    ensures
        fat.fat_entry(fat_set(fat, d, c, v), c) == v % 0x1000_0000,
{
    lemma_entry_fits(c as int, fat.bytes_per_sector as int);
    let s = fat.fat_lba(c);
    let off = fat.fat_off(c);
    let blk = d(s);
    assert(fat_set(fat, d, c, v)(s) == splice(blk, off, le32_bytes(v)));
    lemma_le32_splice(blk, off, v);
}

/// Overwriting the entry of a cluster outside `ws` keeps the entries and blocks of `ws`, and
/// keeps free every free cluster below `top` but that one.
pub proof fn lemma_set_keeps(fat: Fat32, top: int, d1: Disk, d: Disk, ws: Seq<u32>, x: u32, v: u32)
    requires
        fat.wf(),
        fat.regions_ok(),
        top * 4 <= fat.fat_size_sectors * fat.bytes_per_sector,
        top <= 0x4000_0000,
        x < top,
        d(fat.fat_lba(x)).len() == fat.bytes_per_sector,
        all_kept(fat, d1, d, ws),
        all_covered(fat, ws),
        forall|j: int| 0 <= j < ws.len() ==> #[trigger] ws[j] != x,
    ensures
        all_kept(fat, d1, fat_set(fat, d, x, v), ws),
        free_set(fat, d, top).remove(x as int).subset_of(free_set(fat, fat_set(fat, d, x, v), top)),
{
    let d2 = fat_set(fat, d, x, v);
    lemma_fat_block_low(fat, x);
    assert forall|j: int| 0 <= j < ws.len() implies {
        let w = #[trigger] ws[j];
        &&& fat.fat_entry(d2, w) == fat.fat_entry(d1, w)
        &&& forall|k: int| 0 <= k < fat.sectors_per_cluster ==> #[trigger] d2((fat.lba_of(w) + k) as u64) == d1(
            (fat.lba_of(w) + k) as u64,
        )
    } by {
        let w = ws[j];
        lemma_fat_set_keeps_others(fat, d, x, v, w);
        assert forall|k: int| 0 <= k < fat.sectors_per_cluster implies #[trigger] d2((fat.lba_of(w) + k) as u64) == d1(
            (fat.lba_of(w) + k) as u64,
        ) by {
            fat.lemma_lba_of_bound(w);
            assert((w - 2) * fat.sectors_per_cluster >= 0) by (nonlinear_arith)
                requires
                    w >= 2,
            ;
        }
    }
    assert forall|j: int| free_set(fat, d, top).remove(x as int).contains(j) implies #[trigger] free_set(fat, d2, top).contains(j) by {
        lemma_fat_set_keeps_others(fat, d, x, v, j as u32);
    }
}

/// Writing the blocks of a cluster `c` outside `ws` keeps the entries and blocks of `ws`, and
/// keeps every free cluster below `top` free.
pub proof fn lemma_put_keeps(fat: Fat32, top: int, d1: Disk, d: Disk, ws: Seq<u32>, c: u32, data: Seq<u8>)
    requires
        fat.wf(),
        fat.regions_ok(),
        top * 4 <= fat.fat_size_sectors * fat.bytes_per_sector,
        c >= 2,
        all_kept(fat, d1, d, ws),
        all_covered(fat, ws),
        forall|j: int| 0 <= j < ws.len() ==> #[trigger] ws[j] != c,
    ensures
        all_kept(fat, d1, put_blocks(d, fat.lba_of(c), data, fat.bytes_per_sector as nat, fat.sectors_per_cluster as nat), ws),
        free_set(fat, d, top).subset_of(
            free_set(fat, put_blocks(d, fat.lba_of(c), data, fat.bytes_per_sector as nat, fat.sectors_per_cluster as nat), top),
        ),
{
    let d2 = put_blocks(d, fat.lba_of(c), data, fat.bytes_per_sector as nat, fat.sectors_per_cluster as nat);
    assert(d2 == fat.cluster_put(d, c, data));
    assert forall|j: int| 0 <= j < ws.len() implies {
        let x = #[trigger] ws[j];
        &&& fat.fat_entry(d2, x) == fat.fat_entry(d1, x)
        &&& forall|k: int| 0 <= k < fat.sectors_per_cluster ==> #[trigger] d2((fat.lba_of(x) + k) as u64) == d1(
            (fat.lba_of(x) + k) as u64,
        )
    } by {
        let x = ws[j];
        lemma_cluster_put_keeps_entry(fat, d, c, data, x);
        assert forall|k: int| 0 <= k < fat.sectors_per_cluster implies #[trigger] d2((fat.lba_of(x) + k) as u64) == d1(
            (fat.lba_of(x) + k) as u64,
        ) by {
            lemma_cluster_blocks_apart(fat, d, c, data, x, k);
        }
    }
    assert forall|j: int| free_set(fat, d, top).contains(j) implies #[trigger] free_set(fat, d2, top).contains(j) by {
        lemma_cluster_put_keeps_entry(fat, d, c, data, j as u32);
    }
}

/// One step of the recovery writer's allocation: the free cluster `c` is marked as the end of
/// a chain and zeroed, the previous cluster `prev` (when there is one) is linked to it, and
/// `c` is filled. The clusters of `ws` and `vs` keep their entries and blocks, `c` ends up in
/// use, and at most one free cluster is taken.
#[verifier::spinoff_prover]
#[verifier::rlimit(80)]
pub proof fn lemma_recover_step(fat: Fat32, top: int, d1: Disk, ws: Seq<u32>, vs: Seq<u32>, d0: Disk, d2: Disk, d3: Disk, c: u32, prev: u32, has_prev: bool, piece: Seq<u8>)
    requires
        fat.wf(),
        fat.regions_ok(),
        top * 4 <= fat.fat_size_sectors * fat.bytes_per_sector,
        top <= 0x4000_0000,
        all_covered(fat, ws),
        all_covered(fat, vs),
        all_busy(fat, d1, ws),
        all_busy(fat, d1, vs),
        all_kept(fat, d1, d0, ws),
        all_kept(fat, d1, d0, vs),
        fat.fat_entry(d0, c) == 0,
        3 <= c < top,
        d0(fat.fat_lba(c)).len() == fat.bytes_per_sector,
        has_prev ==> prev < top && prev != c && fat.fat_entry(d0, prev) != 0 && (forall|j: int| 0 <= j < ws.len() ==> #[trigger] ws[j] != prev)
            && (forall|j: int| 0 <= j < vs.len() ==> #[trigger] vs[j] != prev)
            && fat.cluster_zeroed(fat_set(fat, d0, c, 0x0FFF_FFFF), c)(fat.fat_lba(prev)).len() == fat.bytes_per_sector
            && d2 == fat_set(fat, fat.cluster_zeroed(fat_set(fat, d0, c, 0x0FFF_FFFF), c), prev, c),
        !has_prev ==> d2 == fat.cluster_zeroed(fat_set(fat, d0, c, 0x0FFF_FFFF), c),
        d3 == fat.cluster_put(d2, c, piece),
    ensures
        all_kept(fat, d1, d3, ws),
        all_kept(fat, d1, d3, vs),
        forall|j: int| 0 <= j < ws.len() ==> #[trigger] ws[j] != c,
        forall|j: int| 0 <= j < vs.len() ==> #[trigger] vs[j] != c,
        fat.fat_entry(d3, c) != 0,
        free_set(fat, d3, top).len() >= free_set(fat, d0, top).len() - 1,
{
    assert forall|j: int| 0 <= j < ws.len() implies #[trigger] ws[j] != c by {
        assert(fat.fat_entry(d0, ws[j]) == fat.fat_entry(d1, ws[j]));
    }
    assert forall|j: int| 0 <= j < vs.len() implies #[trigger] vs[j] != c by {
        assert(fat.fat_entry(d0, vs[j]) == fat.fat_entry(d1, vs[j]));
    }
    let da = fat_set(fat, d0, c, 0x0FFF_FFFF);
    let zeros = Seq::new(fat.cluster_bytes(), |i: int| 0u8);
    let db = fat.cluster_zeroed(da, c);
    assert(db == put_blocks(da, fat.lba_of(c), zeros, fat.bytes_per_sector as nat, fat.sectors_per_cluster as nat));
    lemma_set_keeps(fat, top, d1, d0, ws, c, 0x0FFF_FFFF);
    lemma_set_keeps(fat, top, d1, d0, vs, c, 0x0FFF_FFFF);
    lemma_put_keeps(fat, top, d1, da, ws, c, zeros);
    lemma_put_keeps(fat, top, d1, da, vs, c, zeros);
    lemma_fat_block_low(fat, c);
    lemma_fat_set_reads(fat, d0, c, 0x0FFF_FFFF);
    lemma_cluster_put_keeps_entry(fat, da, c, zeros, c);
    assert(fat.fat_entry(db, c) != 0);
    if has_prev {
        lemma_fat_block_low(fat, prev);
        lemma_fat_set_keeps_others(fat, d0, c, 0x0FFF_FFFF, prev);
        lemma_cluster_put_keeps_entry(fat, da, c, zeros, prev);
        lemma_set_keeps(fat, top, d1, db, ws, prev, c);
        lemma_set_keeps(fat, top, d1, db, vs, prev, c);
        assert(!free_set(fat, db, top).contains(prev as int));
        assert(free_set(fat, db, top).remove(prev as int) =~= free_set(fat, db, top));
        lemma_fat_set_keeps_others(fat, db, prev, c, c);
    }
    assert(fat.fat_entry(d2, c) != 0);
    lemma_put_keeps(fat, top, d1, d2, ws, c, piece);
    lemma_put_keeps(fat, top, d1, d2, vs, c, piece);
    lemma_cluster_put_keeps_entry(fat, d2, c, piece, c);
    assert(d3 == put_blocks(d2, fat.lba_of(c), piece, fat.bytes_per_sector as nat, fat.sectors_per_cluster as nat));
    assert forall|x: int| free_set(fat, d0, top).remove(c as int).contains(x) implies #[trigger] free_set(fat, d3, top).contains(x) by {
        assert(free_set(fat, da, top).contains(x));
        assert(free_set(fat, db, top).contains(x));
        assert(free_set(fat, d2, top).contains(x));
    }
    lemma_free_set_shrink(fat, d0, d3, top, c as int);
}

/// Clusters needed for `len` bytes in clusters of `cb` bytes, as the recovery writer counts
/// them.
pub open spec fn pieces(len: int, cb: int) -> int {
    len / cb + if len % cb != 0 { 1int } else { 0int }
}

/// Whether writing a file named `name` of `len` bytes into the directory at `dir` on `disk`
/// has what the recovery writer needs: the name has an 8.3 form; the volume's regions lie as
/// a formatter lays them out; the directory's chain can be followed and the clusters of it
/// and of its first 129 clusters are in use and covered by the first FAT; the directory has
/// a free record there; and enough clusters are free for the data.
pub open spec fn rec_ready(fat: Fat32, disk: Disk, dir: u32, name: Seq<u8>, len: int) -> bool {
    &&& name83_spec(name) is Some
    &&& fat.regions_ok()
    &&& fat.chain(disk, dir, max_chain()) matches Some(cs) && all_covered(fat, cs) && all_busy(fat, disk, cs)
    &&& all_covered(fat, fat.dir_walk(disk, dir, 129))
    &&& all_busy(fat, disk, fat.dir_walk(disk, dir, 129))
    &&& !fat.dir_full(disk, dir, 129)
    &&& free_set(fat, disk, fat.fat_entries()).len() >= pieces(len, fat.cluster_bytes() as int)
}

/// A directory whose first 129 clusters keep their entries and blocks keeps a free record.
pub proof fn lemma_kept_not_full(fat: Fat32, d0: Disk, d: Disk, parent: u32)
    requires
        all_kept(fat, d0, d, fat.dir_walk(d0, parent, 129)),
        !fat.dir_full(d0, parent, 129),
    ensures
        !fat.dir_full(d, parent, 129),
        fat.dir_walk(d, parent, 129) == fat.dir_walk(d0, parent, 129),
{
    let w = fat.dir_walk(d0, parent, 129);
    assert forall|j: int| 0 <= j < w.len() implies fat.fat_entry(d, #[trigger] w[j]) == fat.fat_entry(d0, w[j]) by {}
    lemma_walk_same(fat, d0, d, parent, 129);
    let (lba, off) = choose|lba: u64, off: int|
        #[trigger] fat.dir_slot_in(d0, parent, 129, lba, off) && !!slot_free(record_at(d0(lba), off));
    let (j, s) = choose|j: int, s: int|
        0 <= j < w.len() && 0 <= s < fat.sectors_per_cluster && #[trigger] fat.walk_block(d0, parent, 129, j, s) == lba;
    let w0 = w[j];
    assert(d((fat.lba_of(w0) + s) as u64) == d0((fat.lba_of(w0) + s) as u64));
    assert(lba == (fat.lba_of(w0) + s) as u64);
    assert(d(lba) == d0(lba));
    assert(fat.walk_block(d, parent, 129, j, s) == lba);
    assert(fat.dir_slot_in(d, parent, 129, lba, off));
}

/// Marking a record of a directory deleted leaves it a free record there.
pub proof fn lemma_unlinked_not_full(fat: Fat32, d: Disk, d2: Disk, parent: u32, sn: Seq<u8>)
    requires
        fat.wf(),
        fat.regions_ok(),
        unlinked(fat, d, d2, parent, sn),
        all_covered(fat, fat.dir_walk(d, parent, 129)),
    ensures
        !fat.dir_full(d2, parent, 129),
        fat.dir_walk(d2, parent, 129) == fat.dir_walk(d, parent, 129),
{
    let (lba, off) = choose|lba: u64, off: int|
        #[trigger] fat.dir_slot_in(d, parent, 129, lba, off) && slot_named(record_at(d(lba), off), sn) && d2 == disk_put(
            d,
            lba,
            d(lba).update(off, 0xE5),
        );
    let w = fat.dir_walk(d, parent, 129);
    let (j, s) = choose|j: int, s: int|
        0 <= j < w.len() && 0 <= s < fat.sectors_per_cluster && #[trigger] fat.walk_block(d, parent, 129, j, s) == lba;
    assert((w[j] - 2) * fat.sectors_per_cluster >= 0) by (nonlinear_arith)
        requires
            w[j] >= 2,
    ;
    assert forall|i: int| 0 <= i < w.len() implies fat.fat_entry(d2, #[trigger] w[i]) == fat.fat_entry(d, w[i]) by {
        lemma_fat_block_low(fat, w[i]);
    }
    lemma_walk_same(fat, d, d2, parent, 129);
    assert(fat.walk_block(d2, parent, 129, j, s) == lba);
    assert(fat.dir_slot_in(d2, parent, 129, lba, off));
    assert(record_at(d2(lba), off)[0] == 0xE5);
}

/// A chain whose clusters keep their entries reads the same.
pub proof fn lemma_chain_kept(fat: Fat32, d0: Disk, d: Disk, dir: u32)
    requires
        fat.chain(d0, dir, max_chain()) matches Some(cs) && all_kept(fat, d0, d, cs),
    ensures
        fat.chain(d, dir, max_chain()) == fat.chain(d0, dir, max_chain()),
{
    let cs = fat.chain(d0, dir, max_chain())->Some_0;
    assert forall|j: int| 0 <= j < cs.len() implies fat.fat_entry(d, #[trigger] cs[j]) == fat.fat_entry(d0, cs[j]) by {}
    lemma_chain_same(fat, d0, d, dir, max_chain());
}

/// The recovery writer's search range: every cluster below it has its entry in the first
/// FAT, and it stays below 2^30.
pub proof fn lemma_entries_covered(fat: Fat32)
    requires
        fat.wf(),
    ensures
        fat.fat_entries() * 4 <= fat.fat_size_sectors * fat.bytes_per_sector,
        fat.fat_entries() <= 0x4000_0000,
        fat.fat_entries() >= 0,
{
    let p = fat.fat_size_sectors as int * fat.bytes_per_sector as int;
    assert(p >= 0) by (nonlinear_arith)
        requires
            p == fat.fat_size_sectors as int * fat.bytes_per_sector as int,
            fat.fat_size_sectors >= 0,
            fat.bytes_per_sector >= 0,
    ;
    assert(p % 0x1_0000_0000 <= p);
}

/// Overwriting a FAT entry the first FAT covers keeps the blocks of every cluster.
pub proof fn lemma_fat_set_keeps_cluster(fat: Fat32, d: Disk, c: u32, v: u32, c2: u32)
    requires
        fat.wf(),
        fat.regions_ok(),
        c as int * 4 < fat.fat_size_sectors * fat.bytes_per_sector,
        c2 >= 2,
    ensures
        fat.cluster_data(fat_set(fat, d, c, v), c2) == fat.cluster_data(d, c2),
{
    lemma_fat_block_low(fat, c);
    fat.lemma_lba_of_bound(c2);
    assert((c2 - 2) * fat.sectors_per_cluster >= 0) by (nonlinear_arith)
        requires
            c2 >= 2,
    ;
    let d2 = fat_set(fat, d, c, v);
    assert forall|k: int| 0 <= k < fat.sectors_per_cluster implies #[trigger] d2((fat.lba_of(c2) + k) as u64) == d(
        (fat.lba_of(c2) + k) as u64,
    ) by {}
    lemma_blocks_same(d2, d, fat.lba_of(c2), fat.sectors_per_cluster as nat);
}

/// Overwriting the entry of a cluster of a run, or of one outside it, keeps the run but for
/// that entry.
pub proof fn lemma_run_fat_set(fat: Fat32, top: int, d: Disk, d2: Disk, cs: Seq<u32>, data: Seq<u8>, c: u32, v: u32)
    requires
        d2 == fat_set(fat, d, c, v),
        fat.wf(),
        fat.regions_ok(),
        fat_covers(fat, top),
        run_body(fat, top, d, cs, data),
        c < top,
        d(fat.fat_lba(c)).len() == fat.bytes_per_sector,
        !cs.contains(c) || (cs.len() > 0 && c == cs.last()),
    ensures
        run_body(fat, top, d2, cs, data),
        fat.fat_entry(d2, c) == v % 0x1000_0000,
        forall|x: u32| x < top && x != c ==> #[trigger] fat.fat_entry(d2, x) == fat.fat_entry(d, x),
{
    reveal(run_body);
    lemma_top_fits(fat, top, c);
    lemma_fat_set_reads(fat, d, c, v);
    assert forall|x: u32| x < top && x != c implies #[trigger] fat.fat_entry(d2, x) == fat.fat_entry(d, x) by {
        lemma_top_fits(fat, top, x);
        lemma_fat_set_keeps_others(fat, d, c, v, x);
    }
    assert forall|i: int| 0 <= i < cs.len() implies fat.cluster_data(d2, #[trigger] cs[i]) == chunk(data, i * fat.cluster_bytes(), fat.cluster_bytes()) by {
        lemma_fat_set_keeps_cluster(fat, d, c, v, cs[i]);
    }
    assert forall|i: int| 0 <= i < cs.len() - 1 implies fat.fat_entry(d2, #[trigger] cs[i]) == cs[i + 1] by {
        if cs[i] == c {
            assert(cs.last() == cs[cs.len() - 1]);
        }
    }
}

/// Writing the blocks of a cluster outside a run keeps the run and every entry.
pub proof fn lemma_run_put_set(fat: Fat32, top: int, d: Disk, d2: Disk, cs: Seq<u32>, data: Seq<u8>, c: u32, piece: Seq<u8>)
    requires
        d2 == fat.cluster_put(d, c, piece),
        fat.wf(),
        fat.regions_ok(),
        fat_covers(fat, top),
        run_body(fat, top, d, cs, data),
        c >= 2,
        !cs.contains(c),
    ensures
        run_body(fat, top, d2, cs, data),
        forall|x: u32| x < top ==> #[trigger] fat.fat_entry(d2, x) == fat.fat_entry(d, x),
{
    reveal(run_body);
    assert forall|x: u32| x < top implies #[trigger] fat.fat_entry(d2, x) == fat.fat_entry(d, x) by {
        lemma_top_fits(fat, top, x);
        lemma_cluster_put_keeps_entry(fat, d, c, piece, x);
    }
    assert forall|i: int| 0 <= i < cs.len() implies fat.cluster_data(d2, #[trigger] cs[i]) == chunk(data, i * fat.cluster_bytes(), fat.cluster_bytes()) by {
        assert(cs[i] != c);
        lemma_cluster_write_keeps_others(fat, d, c, piece, cs[i]);
    }
}

/// One step of the recovery writer on a run: taking the free cluster `c`, linking the run's
/// last cluster `prev` to it when there is one, and filling it with the next piece of `data`
/// makes the run one cluster longer.
pub proof fn lemma_run_step_set(fat: Fat32, top: int, d0: Disk, d1: Disk, d2: Disk, d3: Disk, cs: Seq<u32>, data: Seq<u8>, c: u32, prev: u32, base: int)
    requires
        fat.wf(),
        fat.regions_ok(),
        fat_covers(fat, top),
        holds_run(fat, top, d0, cs, data),
        fat.fat_entry(d0, c) == 0,
        3 <= c < top,
        d0(fat.fat_lba(c)).len() == fat.bytes_per_sector,
        d1 == fat.cluster_zeroed(fat_set(fat, d0, c, 0x0FFF_FFFF), c),
        cs.len() == 0 ==> d2 == d1,
        cs.len() > 0 ==> prev == cs.last() && d1(fat.fat_lba(prev)).len() == fat.bytes_per_sector
            && d2 == fat_set(fat, d1, prev, c),
        d3 == fat.cluster_put(d2, c, chunk(data, base, fat.cluster_bytes())),
        base == cs.len() * fat.cluster_bytes(),
    ensures
        holds_run(fat, top, d3, cs.push(c), data),
{
    reveal(run_body);
    reveal(holds_run);
    assert(!cs.contains(c)) by {
        if cs.contains(c) {
            let i = choose|i: int| 0 <= i < cs.len() && cs[i] == c;
            if i < cs.len() - 1 {
                assert(fat.fat_entry(d0, cs[i]) == cs[i + 1]);
            } else {
                assert(cs.last() == cs[i]);
            }
        }
    }
    let dz = fat_set(fat, d0, c, 0x0FFF_FFFF);
    lemma_run_fat_set(fat, top, d0, dz, cs, data, c, 0x0FFF_FFFF);
    let zs = Seq::new(fat.cluster_bytes(), |i: int| 0u8);
    assert(d1 == fat.cluster_put(dz, c, zs));
    lemma_run_put_set(fat, top, dz, d1, cs, data, c, zs);
    lemma_top_fits(fat, top, c);
    if cs.len() > 0 {
        assert(cs.last() == cs[cs.len() - 1]);
        assert(cs.contains(prev));
        assert(prev < top);
        lemma_run_fat_set(fat, top, d1, d2, cs, data, prev, c);
        assert(fat.fat_entry(d2, c) == 0x0FFF_FFFF);
    }
    lemma_run_fill(fat, top, d2, d3, cs, data, c, base);
}

/// Ending a run at its last cluster keeps it a run.
pub proof fn lemma_run_close_set(fat: Fat32, top: int, d: Disk, d2: Disk, cs: Seq<u32>, data: Seq<u8>, prev: u32)
    requires
        fat.wf(),
        fat.regions_ok(),
        fat_covers(fat, top),
        holds_run(fat, top, d, cs, data),
        cs.len() > 0,
        prev == cs.last(),
        d(fat.fat_lba(prev)).len() == fat.bytes_per_sector,
        d2 == fat_set(fat, d, prev, 0x0FFF_FFFF),
    ensures
        holds_run(fat, top, d2, cs, data),
{
    reveal(holds_run);
    reveal(run_body);
    assert(cs.contains(prev)) by {
        assert(cs[cs.len() - 1] == prev);
    }
    assert(prev < top);
    lemma_run_fat_set(fat, top, d, d2, cs, data, prev, 0x0FFF_FFFF);
}

/// Writing a block of the data region outside every cluster of a run keeps the run.
pub proof fn lemma_run_block_put(fat: Fat32, top: int, d: Disk, cs: Seq<u32>, data: Seq<u8>, lba: u64, b: Seq<u8>)
    requires
        fat.wf(),
        fat.regions_ok(),
        fat_covers(fat, top),
        holds_run(fat, top, d, cs, data),
        lba >= fat.data_start_lba,
        forall|i: int| 0 <= i < cs.len() ==> lba < fat.lba_of(#[trigger] cs[i]) || lba >= fat.lba_of(cs[i]) + fat.sectors_per_cluster,
    ensures
        holds_run(fat, top, disk_put(d, lba, b), cs, data),
{
    reveal(holds_run);
    reveal(run_body);
    let d2 = disk_put(d, lba, b);
    assert forall|x: u32| x < top implies #[trigger] fat.fat_entry(d2, x) == fat.fat_entry(d, x) by {
        lemma_top_fits(fat, top, x);
        lemma_fat_block_low(fat, x);
    }
    assert forall|i: int| 0 <= i < cs.len() implies fat.cluster_data(d2, #[trigger] cs[i]) == fat.cluster_data(d, cs[i]) by {
        fat.lemma_lba_of_bound(cs[i]);
        assert forall|k: int| 0 <= k < fat.sectors_per_cluster implies #[trigger] d2((fat.lba_of(cs[i]) + k) as u64) == d(
            (fat.lba_of(cs[i]) + k) as u64,
        ) by {}
        lemma_blocks_same(d2, d, fat.lba_of(cs[i]), fat.sectors_per_cluster as nat);
    }
    if cs.len() > 0 {
        assert(cs.last() == cs[cs.len() - 1]);
    }
}

/// Writing a block that a search of the directory at `parent` reaches keeps a run whose
/// clusters are none of the directory's.
pub proof fn lemma_dir_put_keeps_run(fat: Fat32, top: int, d: Disk, cs: Seq<u32>, data: Seq<u8>, parent: u32, lba: u64, off: int, b: Seq<u8>)
    requires
        fat.wf(),
        fat.regions_ok(),
        fat_covers(fat, top),
        holds_run(fat, top, d, cs, data),
        fat.dir_slot_in(d, parent, 129, lba, off),
        forall|i: int, j: int|
            0 <= i < cs.len() && 0 <= j < fat.dir_walk(d, parent, 129).len() ==> #[trigger] fat.dir_walk(d, parent, 129)[j]
                != #[trigger] cs[i],
    ensures
        holds_run(fat, top, disk_put(d, lba, b), cs, data),
{
    let w = fat.dir_walk(d, parent, 129);
    let (j, s) = choose|j: int, s: int|
        0 <= j < w.len() && 0 <= s < fat.sectors_per_cluster && #[trigger] fat.walk_block(d, parent, 129, j, s) == lba;
    lemma_walk_elems(fat, d, parent, 129);
    assert(!is_chain_end(w[j]));
    assert((w[j] - 2) * fat.sectors_per_cluster >= 0) by (nonlinear_arith)
        requires
            w[j] >= 2,
    ;
    reveal(holds_run);
    reveal(run_body);
    assert forall|i: int| 0 <= i < cs.len() implies lba < fat.lba_of(#[trigger] cs[i]) || lba >= fat.lba_of(cs[i]) + fat.sectors_per_cluster by {
        assert(w[j] != cs[i]);
        let spc = fat.sectors_per_cluster as int;
        let x = cs[i];
        let y = w[j];
        assert(x >= 3);
        if y < x {
            assert((y - 2) * spc + spc <= (x - 2) * spc) by (nonlinear_arith)
                requires
                    y < x,
                    y >= 2,
                    spc >= 1,
            ;
        } else {
            assert((x - 2) * spc + spc <= (y - 2) * spc) by (nonlinear_arith)
                requires
                    x < y,
                    x >= 2,
                    spc >= 1,
            ;
        }
    }
    lemma_run_block_put(fat, top, d, cs, data, lba, b);
}

/// A run holding `data` in as many clusters as it needs, from its first cluster, is a chain
/// that stores it.
pub proof fn lemma_rec_stores(fat: Fat32, top: int, d: Disk, cs: Seq<u32>, data: Seq<u8>, cb: int, need: int)
    requires
        fat.wf(),
        fat_covers(fat, top),
        holds_run(fat, top, d, cs, data),
        cb == fat.cluster_bytes(),
        cb >= 1,
        need == (data.len() as int) / cb + if (data.len() as int) % cb != 0 { 1int } else { 0int },
        cs.len() == need,
        0 < data.len() <= max_chain() * cb,
    ensures
        cs.len() > 0,
        fat.stores(d, cs[0], data),
{
    let len = data.len() as int;
    assert(need > 0 && (need - 1) * cb < len && len <= need * cb && need <= max_chain()) by (nonlinear_arith)
        requires
            need == len / cb + if len % cb != 0 { 1int } else { 0int },
            cb >= 1,
            len > 0,
            len <= max_chain() * cb,
    {
        assert(len == cb * (len / cb) + len % cb);
    }
    lemma_run_chain(fat, top, d, cs, data, 0, max_chain());
    assert(cs.subrange(0, cs.len() as int) =~= cs);
    lemma_run_data(fat, top, d, cs, data, cs.len() as int);
    lemma_chunk_cut(data, (cs.len() * cb) as nat);
    reveal(holds_run);
}

} // verus!
