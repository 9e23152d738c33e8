use vstd::prelude::*;
use crate::block::{Disk, disk_put};
use crate::bytes::splice;
use crate::fat32::{Fat32, is_chain_end, lemma_fat_block_low, lemma_fat_write_keeps_others, lemma_cluster_put_keeps_entry, lemma_put_blocks_outside, put_blocks};
use crate::fsops::{fat_covers, lemma_top_fits, search_total, first_named};
use vstd::set_lib::{set_int_range, lemma_int_range, lemma_len_subset};
use crate::fsops::{new_record, pos_before, record_at, slot_free, slot_named};

verus! {

/// Whether the clusters a search of the directory at `parent` visits on `disk` (along 65 of
/// them) all have their entries in the first FAT.
pub open spec fn walk_covered(fat: Fat32, disk: Disk, parent: u32) -> bool {
    forall|j: int| 0 <= j < fat.dir_walk(disk, parent, 65).len() ==> (#[trigger] fat.dir_walk(disk, parent, 65)[j]) as int * 4
        < fat.fat_size_sectors * fat.bytes_per_sector
}

/// Whether `d2` keeps what a search of the directory at `parent` sees on `d1`: the FAT entries
/// and the blocks of the clusters it visits.
pub open spec fn dir_kept(fat: Fat32, d1: Disk, d2: Disk, parent: u32) -> bool {
    forall|j: int| 0 <= j < fat.dir_walk(d1, parent, 65).len() ==> {
        let w = #[trigger] fat.dir_walk(d1, parent, 65)[j];
        &&& fat.fat_entry(d2, w) == fat.fat_entry(d1, w)
        &&& forall|k: int| 0 <= k < fat.sectors_per_cluster ==> #[trigger] d2((fat.lba_of(w) + k) as u64) == d1(
            (fat.lba_of(w) + k) as u64,
        )
    }
}

/// The clusters a directory search visits are cluster numbers.
pub proof fn lemma_walk_elems(fat: Fat32, d: Disk, c: u32, n: nat)
    ensures
        forall|j: int| 0 <= j < fat.dir_walk(d, c, n).len() ==> !is_chain_end(#[trigger] fat.dir_walk(d, c, n)[j]),
    decreases n,
{
    if n > 0 && !is_chain_end(c) {
        let nx = fat.fat_entry(d, c);
        lemma_walk_elems(fat, d, nx, (n - 1) as nat);
        let w = fat.dir_walk(d, c, n);
        assert(w == seq![c] + fat.dir_walk(d, nx, (n - 1) as nat));
        assert forall|j: int| 0 <= j < w.len() implies !is_chain_end(#[trigger] w[j]) by {
            if j > 0 {
                assert(w[j] == fat.dir_walk(d, nx, (n - 1) as nat)[j - 1]);
            }
        }
    }
}

/// A directory search visits the same clusters on a disk whose FAT entries for them are the
/// same.
pub proof fn lemma_walk_same(fat: Fat32, d1: Disk, d2: Disk, c: u32, n: nat)
    requires
        forall|j: int| 0 <= j < fat.dir_walk(d1, c, n).len() ==> fat.fat_entry(d2, #[trigger] fat.dir_walk(d1, c, n)[j])
            == fat.fat_entry(d1, fat.dir_walk(d1, c, n)[j]),
    ensures
        fat.dir_walk(d2, c, n) == fat.dir_walk(d1, c, n),
    decreases n,
{
    if n > 0 && !is_chain_end(c) {
        let nx = fat.fat_entry(d1, c);
        let w = fat.dir_walk(d1, c, n);
        let rest = fat.dir_walk(d1, nx, (n - 1) as nat);
        assert(w == seq![c] + rest);
        assert(w[0] == c);
        assert(fat.fat_entry(d2, c) == nx);
        assert forall|j: int| 0 <= j < rest.len() implies fat.fat_entry(d2, #[trigger] rest[j]) == fat.fat_entry(d1, rest[j]) by {
            assert(rest[j] == w[j + 1]);
        }
        lemma_walk_same(fat, d1, d2, nx, (n - 1) as nat);
    }
}

/// A directory whose clusters and their FAT entries are kept still holds a findable record
/// named `sn` when it held one.
pub proof fn lemma_kept_findable(fat: Fat32, d1: Disk, d2: Disk, parent: u32, sn: Seq<u8>)
    requires
        dir_kept(fat, d1, d2, parent),
        !fat.name_absent(d1, parent, 65, sn),
    ensures
        !fat.name_absent(d2, parent, 65, sn),
        fat.dir_walk(d2, parent, 65) == fat.dir_walk(d1, parent, 65),
{
    let w = fat.dir_walk(d1, parent, 65);
    assert forall|j: int| 0 <= j < w.len() implies fat.fat_entry(d2, #[trigger] w[j]) == fat.fat_entry(d1, w[j]) by {}
    lemma_walk_same(fat, d1, d2, parent, 65);
    let (j, s, o) = choose|j: int, s: int, o: int|
        !(j < fat.dir_walk(d1, parent, 65).len() && fat.rec_pos(j, s, o) && slot_named(
            #[trigger] fat.rec_at(d1, parent, 65, j, s, o),
            sn,
        ) ==> exists|j2: int, s2: int, o2: int|
            fat.rec_pos(j2, s2, o2) && pos_before(j2, s2, o2, j, s, o) && #[trigger] fat.rec_at(d1, parent, 65, j2, s2, o2)[0]
                == 0);
    assert(fat.rec_at(d2, parent, 65, j, s, o) == fat.rec_at(d1, parent, 65, j, s, o)) by {
        let x = w[j];
        assert(fat.walk_block(d1, parent, 65, j, s) == fat.lba_of(x) + s);
    }
    if fat.name_absent(d2, parent, 65, sn) {
        let (j2, s2, o2) = choose|j2: int, s2: int, o2: int|
            fat.rec_pos(j2, s2, o2) && pos_before(j2, s2, o2, j, s, o) && #[trigger] fat.rec_at(d2, parent, 65, j2, s2, o2)[0] == 0;
        assert(j2 < w.len());
        assert(fat.rec_at(d2, parent, 65, j2, s2, o2) == fat.rec_at(d1, parent, 65, j2, s2, o2)) by {
            let x = w[j2];
            assert(fat.walk_block(d1, parent, 65, j2, s2) == fat.lba_of(x) + s2);
        }
        assert(false);
    }
}

/// A block a search of the directory at `parent` reaches lies in the data region.
pub proof fn lemma_slot_in_data(fat: Fat32, d0: Disk, parent: u32, lba: u64, off: int)
    requires
        fat.wf(),
        fat.dir_slot(d0, parent, lba, off),
    ensures
        lba >= fat.data_start_lba,
{
    let w = fat.dir_walk(d0, parent, 65);
    let (j, s) = choose|j: int, s: int|
        0 <= j < w.len() && 0 <= s < fat.sectors_per_cluster && #[trigger] fat.walk_block(d0, parent, 65, j, s) == lba;
    lemma_walk_elems(fat, d0, parent, 65);
    assert(!is_chain_end(w[j]));
    assert((w[j] - 2) * fat.sectors_per_cluster >= 0) by (nonlinear_arith)
        requires
            w[j] >= 2,
    ;
}

/// Writing a block of the data region changes no FAT entry the first FAT covers.
pub proof fn lemma_data_put_keeps_fat(fat: Fat32, d0: Disk, lba: u64, b: Seq<u8>)
    requires
        fat.wf(),
        fat.regions_ok(),
        lba >= fat.data_start_lba,
    ensures
        forall|c: u32| c as int * 4 < fat.fat_size_sectors * fat.bytes_per_sector ==> #[trigger] fat.fat_entry(
            disk_put(d0, lba, b),
            c,
        ) == fat.fat_entry(d0, c),
{
    assert forall|c: u32| c as int * 4 < fat.fat_size_sectors * fat.bytes_per_sector implies #[trigger] fat.fat_entry(
        disk_put(d0, lba, b),
        c,
    ) == fat.fat_entry(d0, c) by {
        lemma_fat_block_low(fat, c);
    }
}

/// Putting a record named `sn` in the first free record of a directory makes it one a name
/// search finds, keeps the clusters the search visits, and changes no FAT entry the first
/// FAT covers.
#[verifier::spinoff_prover]
#[verifier::rlimit(60)]
pub proof fn lemma_first_put_named(fat: Fat32, d0: Disk, d1: Disk, parent: u32, sn: Seq<u8>, attr: u8, first: u32)
    requires
        fat.wf(),
        fat.regions_ok(),
        fat.put_first(d0, d1, parent, new_record(sn, attr, first)),
        sn.len() == 11,
        sn[0] != 0,
        sn[0] != 0xE5,
        attr != 0x0F,
        walk_covered(fat, d0, parent),
    ensures
        !fat.name_absent(d1, parent, 65, sn),
        fat.dir_walk(d1, parent, 65) == fat.dir_walk(d0, parent, 65),
        forall|c: u32| c as int * 4 < fat.fat_size_sectors * fat.bytes_per_sector ==> #[trigger] fat.fat_entry(d1, c)
            == fat.fat_entry(d0, c),
{
    let rec = new_record(sn, attr, first);
    let (lba, off) = choose|lba: u64, off: int|
        #[trigger] fat.dir_slot(d0, parent, lba, off) && fat.first_hit(d0, parent, 65, true, Seq::empty(), lba, off)
            && slot_free(record_at(d0(lba), off)) && d1 == disk_put(d0, lba, splice(d0(lba), off, rec));
    let b0 = d0(lba);
    lemma_slot_in_data(fat, d0, parent, lba, off);
    lemma_data_put_keeps_fat(fat, d0, lba, splice(b0, off, rec));
    let w = fat.dir_walk(d0, parent, 65);
    assert forall|i: int| 0 <= i < w.len() implies fat.fat_entry(d1, #[trigger] w[i]) == fat.fat_entry(d0, w[i]) by {
        assert(fat.fat_entry(d1, w[i]) == fat.fat_entry(d0, w[i]));
    }
    lemma_walk_same(fat, d0, d1, parent, 65);
    lemma_new_record_named(sn, attr, first);
    lemma_first_put_found(fat, d0, d1, parent, sn, rec, lba, off);
}

/// The record put by `lemma_first_put_named` is one a name search finds.
#[verifier::spinoff_prover]
#[verifier::rlimit(60)]
proof fn lemma_first_put_found(fat: Fat32, d0: Disk, d1: Disk, parent: u32, sn: Seq<u8>, rec: Seq<u8>, lba: u64, off: int)
    requires
        fat.wf(),
        fat.dir_slot(d0, parent, lba, off),
        fat.first_hit(d0, parent, 65, true, Seq::empty(), lba, off),
        slot_free(record_at(d0(lba), off)),
        d1 == disk_put(d0, lba, splice(d0(lba), off, rec)),
        fat.dir_walk(d1, parent, 65) == fat.dir_walk(d0, parent, 65),
        rec.len() == 32,
        slot_named(rec, sn),
    ensures
        !fat.name_absent(d1, parent, 65, sn),
{
    let (j, s) = choose|j: int, s: int|
        0 <= j < fat.dir_walk(d0, parent, 65).len() && 0 <= s < fat.sectors_per_cluster
            && #[trigger] fat.walk_block(d0, parent, 65, j, s) == lba && forall|j2: int, s2: int, o2: int|
            fat.rec_pos(j2, s2, o2) && pos_before(j2, s2, o2, j, s, off) ==> #[trigger] fat.passes(
                d0,
                parent,
                65,
                true,
                Seq::empty(),
                j2,
                s2,
                o2,
            );
    let b0 = d0(lba);
    assert(b0.len() == fat.bytes_per_sector);
    assert(record_at(d1(lba), off) =~= rec);
    assert(fat.walk_block(d1, parent, 65, j, s) == lba);
    assert(fat.rec_at(d1, parent, 65, j, s, off) == rec);
    assert(fat.rec_pos(j, s, off));
    if fat.name_absent(d1, parent, 65, sn) {
        let (j2, s2, o2) = choose|j2: int, s2: int, o2: int|
            fat.rec_pos(j2, s2, o2) && pos_before(j2, s2, o2, j, s, off) && #[trigger] fat.rec_at(d1, parent, 65, j2, s2, o2)[0] == 0;
        assert(fat.passes(d0, parent, 65, true, Seq::empty(), j2, s2, o2));
        let lba2 = fat.walk_block(d0, parent, 65, j2, s2);
        assert(fat.walk_block(d1, parent, 65, j2, s2) == lba2);
        if lba2 as u64 == lba {
            if o2 == off {
                assert(fat.rec_at(d0, parent, 65, j2, s2, o2) == record_at(b0, off));
            } else {
                assert(o2 + 32 <= off || off + 32 <= o2);
                assert(fat.rec_at(d1, parent, 65, j2, s2, o2)[0] == d1(lba)[o2]);
                assert(d1(lba)[o2] == b0[o2]);
                assert(fat.rec_at(d0, parent, 65, j2, s2, o2)[0] == b0[o2]);
            }
        } else {
            assert(d1(lba2 as u64) == d0(lba2 as u64));
        }
        assert(false);
    }
}

/// A new record with a name that starts with neither 0 nor 0xE5 and an attribute other than
/// 0x0F is a live short-name record of that name.
pub proof fn lemma_new_record_named(sn: Seq<u8>, attr: u8, first: u32)
    requires
        sn.len() == 11,
        sn[0] != 0,
        sn[0] != 0xE5,
        attr != 0x0F,
    ensures
        slot_named(new_record(sn, attr, first), sn),
        new_record(sn, attr, first).len() == 32,
{
    let rec = new_record(sn, attr, first);
    assert(rec.subrange(0, 11) =~= sn);
}

/// The clusters from 3 up to `top` whose FAT entry on `disk` is zero.
pub open spec fn free_set(fat: Fat32, disk: Disk, top: int) -> Set<int> {
    Set::new(|j: int| 3 <= j < top && fat.fat_entry(disk, j as u32) == 0)
}

/// Whether every cluster a search of the directory at `parent` visits on `disk` is in use.
pub open spec fn walk_busy(fat: Fat32, disk: Disk, parent: u32) -> bool {
    forall|j: int| 0 <= j < fat.dir_walk(disk, parent, 65).len() ==> fat.fat_entry(disk, #[trigger] fat.dir_walk(disk, parent, 65)[j]) != 0
}

/// The free clusters below `top` are finitely many.
pub proof fn lemma_free_set_finite(fat: Fat32, disk: Disk, top: int)
    ensures
        free_set(fat, disk, top).finite(),
{
    let t = if top < 3 { 3 } else { top };
    lemma_int_range(3, t);
    lemma_len_subset(free_set(fat, disk, top), set_int_range(3, t));
}

/// With at least one free cluster below `top`, there is one.
pub proof fn lemma_free_set_pick(fat: Fat32, disk: Disk, top: int)
    requires
        free_set(fat, disk, top).len() >= 1,
        top <= u32::MAX,
    ensures
        exists|j: u32| 3 <= j < top && #[trigger] fat.fat_entry(disk, j) == 0,
{
    lemma_free_set_finite(fat, disk, top);
    let f = free_set(fat, disk, top);
    let x = f.choose();
    assert(f.contains(x));
    assert(3 <= (x as u32) < top && fat.fat_entry(disk, x as u32) == 0);
}

/// A set of free clusters that holds all but `c` of another holds at most one fewer.
pub proof fn lemma_free_set_shrink(fat: Fat32, d0: Disk, d1: Disk, top: int, c: int)
    requires
        free_set(fat, d0, top).remove(c).subset_of(free_set(fat, d1, top)),
        free_set(fat, d0, top).contains(c),
    ensures
        free_set(fat, d1, top).len() >= free_set(fat, d0, top).len() - 1,
{
    lemma_free_set_finite(fat, d0, top);
    lemma_free_set_finite(fat, d1, top);
    lemma_len_subset(free_set(fat, d0, top).remove(c), free_set(fat, d1, top));
}

/// Writing the FAT entry of cluster `x`, which the first FAT covers, keeps every block of the
/// data region.
pub proof fn lemma_fat_put_keeps_data_block(fat: Fat32, d: Disk, x: u32, v: u32, l: u64)
    requires
        fat.wf(),
        fat.regions_ok(),
        x as int * 4 < fat.fat_size_sectors * fat.bytes_per_sector,
        l >= fat.data_start_lba,
    ensures
        fat.fat_put(d, x, v)(l) == d(l),
{
    lemma_fat_block_low(fat, x);
}

/// Writing the blocks of cluster `c` keeps the blocks of any other cluster.
pub proof fn lemma_cluster_blocks_apart(fat: Fat32, d: Disk, c: u32, data: Seq<u8>, w: u32, k: int)
    requires
        fat.wf(),
        c >= 2,
        w >= 2,
        w != c,
        0 <= k < fat.sectors_per_cluster,
    ensures
        put_blocks(d, fat.lba_of(c), data, fat.bytes_per_sector as nat, fat.sectors_per_cluster as nat)((fat.lba_of(w) + k) as u64)
            == d((fat.lba_of(w) + k) as u64),
{
    fat.lemma_lba_of_bound(c);
    fat.lemma_lba_of_bound(w);
    let spc = fat.sectors_per_cluster as int;
    if w < c {
        assert((w - 2) * spc + spc <= (c - 2) * spc) by (nonlinear_arith)
            requires
                w < c,
                w >= 2,
                spc >= 1,
        ;
    } else {
        assert((c - 2) * spc + spc <= (w - 2) * spc) by (nonlinear_arith)
            requires
                c < w,
                c >= 2,
                spc >= 1,
        ;
    }
    lemma_put_blocks_outside(d, fat.lba_of(c), data, fat.bytes_per_sector as nat, fat.sectors_per_cluster as nat, (fat.lba_of(w) + k) as u64);
}

/// Setting the FAT entry of a cluster `x` outside the directory's clusters keeps what a search
/// of the directory sees, and keeps free every free cluster but `x`.
pub proof fn lemma_fat_put_keeps_dir(fat: Fat32, top: int, d1: Disk, d: Disk, parent: u32, x: u32, v: u32)
    requires
        fat.wf(),
        fat.regions_ok(),
        fat_covers(fat, top),
        x < top,
        d(fat.fat_lba(x)).len() == fat.bytes_per_sector,
        dir_kept(fat, d1, d, parent),
        walk_covered(fat, d1, parent),
        forall|j: int| 0 <= j < fat.dir_walk(d1, parent, 65).len() ==> #[trigger] fat.dir_walk(d1, parent, 65)[j] != x,
    ensures
        dir_kept(fat, d1, fat.fat_put(d, x, v), parent),
        free_set(fat, d, top).remove(x as int).subset_of(free_set(fat, fat.fat_put(d, x, v), top)),
{
    let d2 = fat.fat_put(d, x, v);
    let w = fat.dir_walk(d1, parent, 65);
    lemma_top_fits(fat, top, x);
    lemma_walk_elems(fat, d1, parent, 65);
    assert forall|j: int| 0 <= j < w.len() implies {
        let c = #[trigger] w[j];
        &&& fat.fat_entry(d2, c) == fat.fat_entry(d1, c)
        &&& forall|k: int| 0 <= k < fat.sectors_per_cluster ==> #[trigger] d2((fat.lba_of(c) + k) as u64) == d1(
            (fat.lba_of(c) + k) as u64,
        )
    } by {
        let c = w[j];
        assert(!is_chain_end(c));
        assert(c as int * 4 < fat.fat_size_sectors * fat.bytes_per_sector);
        lemma_fat_write_keeps_others(fat, d, x, v, c);
        assert forall|k: int| 0 <= k < fat.sectors_per_cluster implies #[trigger] d2((fat.lba_of(c) + k) as u64) == d1(
            (fat.lba_of(c) + k) as u64,
        ) by {
            fat.lemma_lba_of_bound(c);
            assert((c - 2) * fat.sectors_per_cluster >= 0) by (nonlinear_arith)
                requires
                    c >= 2,
            ;
            lemma_fat_put_keeps_data_block(fat, d, x, v, (fat.lba_of(c) + k) as u64);
        }
    }
    assert forall|j: int| free_set(fat, d, top).remove(x as int).contains(j) implies #[trigger] free_set(fat, d2, top).contains(j) by {
        lemma_top_fits(fat, top, j as u32);
        lemma_fat_write_keeps_others(fat, d, x, v, j as u32);
    }
}

/// Writing the blocks of a cluster `c` outside the directory's clusters keeps what a search of
/// the directory sees, and keeps every free cluster free.
pub proof fn lemma_cluster_put_keeps_dir(fat: Fat32, top: int, d1: Disk, d: Disk, parent: u32, c: u32, data: Seq<u8>)
    requires
        fat.wf(),
        fat.regions_ok(),
        fat_covers(fat, top),
        c >= 2,
        dir_kept(fat, d1, d, parent),
        walk_covered(fat, d1, parent),
        forall|j: int| 0 <= j < fat.dir_walk(d1, parent, 65).len() ==> #[trigger] fat.dir_walk(d1, parent, 65)[j] != c,
    ensures
        dir_kept(fat, d1, put_blocks(d, fat.lba_of(c), data, fat.bytes_per_sector as nat, fat.sectors_per_cluster as nat), parent),
        free_set(fat, d, top).subset_of(
            free_set(fat, put_blocks(d, fat.lba_of(c), data, fat.bytes_per_sector as nat, fat.sectors_per_cluster as nat), top),
        ),
{
    let d2 = put_blocks(d, fat.lba_of(c), data, fat.bytes_per_sector as nat, fat.sectors_per_cluster as nat);
    assert(d2 == fat.cluster_put(d, c, data));
    let w = fat.dir_walk(d1, parent, 65);
    lemma_walk_elems(fat, d1, parent, 65);
    assert forall|j: int| 0 <= j < w.len() implies {
        let x = #[trigger] w[j];
        &&& fat.fat_entry(d2, x) == fat.fat_entry(d1, x)
        &&& forall|k: int| 0 <= k < fat.sectors_per_cluster ==> #[trigger] d2((fat.lba_of(x) + k) as u64) == d1(
            (fat.lba_of(x) + k) as u64,
        )
    } by {
        let x = w[j];
        assert(!is_chain_end(x));
        lemma_cluster_put_keeps_entry(fat, d, c, data, x);
        assert forall|k: int| 0 <= k < fat.sectors_per_cluster implies #[trigger] d2((fat.lba_of(x) + k) as u64) == d1(
            (fat.lba_of(x) + k) as u64,
        ) by {
            lemma_cluster_blocks_apart(fat, d, c, data, x, k);
        }
    }
    assert forall|j: int| free_set(fat, d, top).contains(j) implies #[trigger] free_set(fat, d2, top).contains(j) by {
        lemma_top_fits(fat, top, j as u32);
        lemma_cluster_put_keeps_entry(fat, d, c, data, j as u32);
    }
}

/// Clusters needed for `len` bytes in clusters of `cb` bytes.
pub open spec fn clusters_for(len: int, cb: int) -> int {
    (len + cb - 1) / cb
}

/// One step of storing data: taking the free cluster `c` (marked as the end of a chain and
/// zeroed), linking the chain's last cluster `prev` to it when there is one, and filling it,
/// all outside the directory's clusters, keeps what a search of the directory sees and takes
/// at most one cluster from the free ones.
pub proof fn lemma_alloc_step(fat: Fat32, top: int, dd: Disk, parent: u32, d0: Disk, d2: Disk, d3: Disk, c: u32, prev: u32, has_prev: bool, piece: Seq<u8>)
    requires
        fat.wf(),
        fat.regions_ok(),
        fat_covers(fat, top),
        walk_covered(fat, dd, parent),
        walk_busy(fat, dd, parent),
        dir_kept(fat, dd, d0, parent),
        fat.fat_entry(d0, c) == 0,
        3 <= c < top,
        d0(fat.fat_lba(c)).len() == fat.bytes_per_sector,
        has_prev ==> prev < top && fat.fat_entry(fat.cluster_zeroed(fat.fat_put(d0, c, 0x0FFF_FFFF), c), prev) != 0
            && fat.cluster_zeroed(fat.fat_put(d0, c, 0x0FFF_FFFF), c)(fat.fat_lba(prev)).len() == fat.bytes_per_sector
            && (forall|j: int| 0 <= j < fat.dir_walk(dd, parent, 65).len() ==> #[trigger] fat.dir_walk(dd, parent, 65)[j] != prev)
            && d2 == fat.fat_put(fat.cluster_zeroed(fat.fat_put(d0, c, 0x0FFF_FFFF), c), prev, c),
        !has_prev ==> d2 == fat.cluster_zeroed(fat.fat_put(d0, c, 0x0FFF_FFFF), c),
        d3 == fat.cluster_put(d2, c, piece),
    ensures
        dir_kept(fat, dd, d3, parent),
        forall|j: int| 0 <= j < fat.dir_walk(dd, parent, 65).len() ==> #[trigger] fat.dir_walk(dd, parent, 65)[j] != c,
        free_set(fat, d3, top).len() >= free_set(fat, d0, top).len() - 1,
{
    let w = fat.dir_walk(dd, parent, 65);
    assert forall|j: int| 0 <= j < w.len() implies #[trigger] w[j] != c by {
        assert(fat.fat_entry(d0, w[j]) == fat.fat_entry(dd, w[j]));
    }
    let da = fat.fat_put(d0, c, 0x0FFF_FFFF);
    let db = fat.cluster_zeroed(da, c);
    lemma_fat_put_keeps_dir(fat, top, dd, d0, parent, c, 0x0FFF_FFFF);
    lemma_cluster_put_keeps_dir(fat, top, dd, da, parent, c, Seq::new(fat.cluster_bytes(), |i: int| 0u8));
    if has_prev {
        lemma_fat_put_keeps_dir(fat, top, dd, db, parent, prev, c);
        assert(!free_set(fat, db, top).contains(prev as int));
        assert(free_set(fat, db, top).remove(prev as int) =~= free_set(fat, db, top));
    }
    lemma_cluster_put_keeps_dir(fat, top, dd, d2, parent, c, piece);
    assert(d3 == put_blocks(d2, fat.lba_of(c), piece, fat.bytes_per_sector as nat, fat.sectors_per_cluster as nat));
    assert forall|x: int| free_set(fat, d0, top).remove(c as int).contains(x) implies #[trigger] free_set(fat, d3, top).contains(x) by {
        assert(free_set(fat, da, top).contains(x));
        assert(free_set(fat, db, top).contains(x));
        assert(free_set(fat, d2, top).contains(x));
    }
    lemma_free_set_shrink(fat, d0, d3, top, c as int);
}

/// Whether storing a new file named `name` (8.3 name `sn`) of `len` bytes in the directory at
/// `dir` on `disk` has what it needs: the volume's regions lie as a formatter lays them out,
/// blocks of at least 512 bytes; the directory can be listed, has no entry of that name and a
/// free record, and its clusters are in use and covered by the first FAT; the 8.3 name starts
/// with neither 0 nor 0xE5; and enough clusters are free for the data.
pub open spec fn store_ready(fat: Fat32, disk: Disk, dir: u32, name: Seq<u8>, sn: Seq<u8>, len: int) -> bool {
    &&& fat.regions_ok()
    &&& fat.bytes_per_sector >= 512
    &&& walk_covered(fat, disk, dir)
    &&& walk_busy(fat, disk, dir)
    &&& fat.dir_entries(disk, dir) matches Some(es) && first_named(es, name, 0) is None
    &&& !fat.dir_full(disk, dir, 65)
    &&& sn.len() == 11
    &&& sn[0] != 0
    &&& sn[0] != 0xE5
    &&& free_set(fat, disk, search_total(fat)).len() >= clusters_for(len, fat.cluster_bytes() as int)
}

/// After the new entry is put in, the directory is still as `store_ready` needs it, and as
/// many clusters are free.
pub proof fn lemma_ready_after_insert(fat: Fat32, d0: Disk, d1: Disk, dir: u32, name: Seq<u8>, sn: Seq<u8>, len: int)
    requires
        fat.wf(),
        store_ready(fat, d0, dir, name, sn, len),
        fat_covers(fat, search_total(fat)),
        fat.dir_walk(d1, dir, 65) == fat.dir_walk(d0, dir, 65),
        forall|c: u32| c as int * 4 < fat.fat_size_sectors * fat.bytes_per_sector ==> #[trigger] fat.fat_entry(d1, c)
            == fat.fat_entry(d0, c),
    ensures
        walk_covered(fat, d1, dir),
        walk_busy(fat, d1, dir),
        dir_kept(fat, d1, d1, dir),
        free_set(fat, d1, search_total(fat)).len() >= clusters_for(len, fat.cluster_bytes() as int),
{
    let top = search_total(fat);
    let w = fat.dir_walk(d0, dir, 65);
    assert forall|j: int| 0 <= j < w.len() implies fat.fat_entry(d1, #[trigger] w[j]) != 0 by {
        assert(fat.fat_entry(d1, w[j]) == fat.fat_entry(d0, w[j]));
    }
    assert(free_set(fat, d1, top) =~= free_set(fat, d0, top)) by {
        assert forall|j: int| #[trigger] free_set(fat, d1, top).contains(j) == free_set(fat, d0, top).contains(j) by {
            if 3 <= j < top {
                lemma_top_fits(fat, top, j as u32);
            }
        }
    }
}

/// Fewer than the needed clusters are taken while the data is not all stored.
pub proof fn lemma_clusters_left(len: int, cb: int, k: int)
    requires
        cb >= 1,
        k >= 0,
        k * cb < len,
    ensures
        clusters_for(len, cb) - k >= 1,
{
    assert((len + cb - 1) / cb >= k + 1) by (nonlinear_arith)
        requires
            cb >= 1,
            k * cb < len,
            k >= 0,
    {
        assert(len + cb - 1 >= (k + 1) * cb);
    }
}

} // verus!
