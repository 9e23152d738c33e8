use vstd::prelude::*;
use crate::block::{Disk, disk_put};
use crate::bytes::{splice, le32, le32_bytes};
use crate::fat32::{put_blocks, lemma_le32_splice, lemma_le32_splice_other, lemma_put_blocks_outside};
use crate::esp::Esp;
use crate::install::EOC;
use vstd::set_lib::{set_int_range, lemma_int_range, lemma_len_subset};

verus! {

/// Whether the first FAT of `e` covers every cluster of the volume.
pub open spec fn fat_covers_all(e: Esp) -> bool {
    (e.max_cluster as int + 1) * 4 <= e.fat_size as int * 512
}

/// Whether `d2` agrees with `d` on the FAT entry and the blocks of every cluster of the volume
/// but `x`.
pub open spec fn same_but(e: Esp, d: Disk, d2: Disk, x: u32) -> bool {
    &&& forall|y: u32| 2 <= y <= e.max_cluster && y != x ==> #[trigger] e.entry(d2, y) == e.entry(d, y)
    &&& forall|y: u32, k: int|
        2 <= y <= e.max_cluster && y != x && 0 <= k < e.spc ==> #[trigger] d2((e.lba_of(y) + k) as u64) == d(
            (e.lba_of(y) + k) as u64,
        )
}

/// Whether `d2` keeps, along the first `n` clusters of the chain from `c` on `d1`, each
/// cluster's FAT entry and blocks.
pub open spec fn kept_chain(e: Esp, d1: Disk, d2: Disk, c: u32, n: nat) -> bool
    decreases n,
{
    n == 0 || !(2 <= c <= e.max_cluster) || {
        &&& e.entry(d2, c) == e.entry(d1, c)
        &&& forall|k: int| 0 <= k < e.spc ==> #[trigger] d2((e.lba_of(c) + k) as u64) == d1((e.lba_of(c) + k) as u64)
        &&& e.entry(d1, c) < 0x0FFF_FFF8 ==> kept_chain(e, d1, d2, e.entry(d1, c) as u32, (n - 1) as nat)
    }
}

/// Whether `x` is one of the first `n` clusters of the chain from `c` on `d`.
pub open spec fn in_chain(e: Esp, d: Disk, c: u32, n: nat, x: u32) -> bool
    decreases n,
{
    n > 0 && 2 <= c <= e.max_cluster && (c == x || (e.entry(d, c) < 0x0FFF_FFF8 && in_chain(
        e,
        d,
        e.entry(d, c) as u32,
        (n - 1) as nat,
        x,
    )))
}

/// The clusters of the volume whose FAT entry is zero.
pub open spec fn esp_free(e: Esp, d: Disk) -> Set<int> {
    Set::new(|x: int| 2 <= x <= e.max_cluster && e.entry(d, x as u32) == 0)
}

/// A disk keeps every chain on itself.
pub proof fn lemma_kept_refl(e: Esp, d: Disk, c: u32, n: nat)
    ensures
        kept_chain(e, d, d, c, n),
    decreases n,
{
    if n > 0 && 2 <= c <= e.max_cluster && e.entry(d, c) < 0x0FFF_FFF8 {
        lemma_kept_refl(e, d, e.entry(d, c) as u32, (n - 1) as nat);
    }
}

/// A change outside a chain keeps it.
pub proof fn lemma_kept_step(e: Esp, d1: Disk, d: Disk, d2: Disk, c: u32, n: nat, x: u32)
    requires
        kept_chain(e, d1, d, c, n),
        !in_chain(e, d1, c, n, x),
        same_but(e, d, d2, x),
    ensures
        kept_chain(e, d1, d2, c, n),
    decreases n,
{
    if n > 0 && 2 <= c <= e.max_cluster {
        assert(c != x);
        assert(e.entry(d2, c) == e.entry(d, c));
        assert forall|k: int| 0 <= k < e.spc implies #[trigger] d2((e.lba_of(c) + k) as u64) == d1((e.lba_of(c) + k) as u64) by {
            assert(d2((e.lba_of(c) + k) as u64) == d((e.lba_of(c) + k) as u64));
        }
        if e.entry(d1, c) < 0x0FFF_FFF8 {
            lemma_kept_step(e, d1, d, d2, e.entry(d1, c) as u32, (n - 1) as nat, x);
        }
    }
}

/// A chain kept on `d2` still has a free record where it had one on `d1`.
pub proof fn lemma_fw_kept(e: Esp, d1: Disk, d2: Disk, c: u32, n: nat)
    requires
        e.free_within(d1, c, n),
        kept_chain(e, d1, d2, c, n),
    ensures
        e.free_within(d2, c, n),
    decreases n,
{
    if e.cluster_has_free(d1, c) {
        let (s, o) = choose|s: int, o: int| 0 <= s < e.spc && 0 <= o < 512 && o % 32 == 0 && #[trigger] e.free_at(d1, c, s, o);
        assert(d2((e.lba_of(c) + s) as u64) == d1((e.lba_of(c) + s) as u64));
        assert(e.free_at(d2, c, s, o));
    } else {
        lemma_fw_kept(e, d1, d2, e.entry(d1, c) as u32, (n - 1) as nat);
    }
}

/// A cluster whose entry is zero on `d1` is not on a chain whose clusters are all in use.
pub proof fn lemma_free_not_in_chain(e: Esp, d1: Disk, d: Disk, c: u32, n: nat, x: u32)
    requires
        kept_chain(e, d1, d, c, n),
        busy_chain(e, d1, c, n),
        e.entry(d, x) == 0,
    ensures
        !in_chain(e, d1, c, n, x),
    decreases n,
{
    if n > 0 && 2 <= c <= e.max_cluster && e.entry(d1, c) < 0x0FFF_FFF8 {
        lemma_free_not_in_chain(e, d1, d, e.entry(d1, c) as u32, (n - 1) as nat, x);
    }
}

/// Whether every cluster of the first `n` of the chain from `c` on `d` is in use.
pub open spec fn busy_chain(e: Esp, d: Disk, c: u32, n: nat) -> bool
    decreases n,
{
    n == 0 || !(2 <= c <= e.max_cluster) || (e.entry(d, c) != 0 && (e.entry(d, c) < 0x0FFF_FFF8 ==> busy_chain(
        e,
        d,
        e.entry(d, c) as u32,
        (n - 1) as nat,
    )))
}

/// Setting the entry of cluster `x` keeps every other cluster's entry and blocks, and `x`'s
/// entry reads back as the low 28 bits of what was written.
pub proof fn lemma_entry_put_same_but(e: Esp, d: Disk, x: u32, v: u32)
    requires
        e.wf(),
        fat_covers_all(e),
        2 <= x <= e.max_cluster,
        d(e.fat_block(x) as u64).len() == 512,
    ensures
        same_but(e, d, e.entry_put(d, x, v), x),
        e.entry(e.entry_put(d, x, v), x) == v % 0x1000_0000,
{
    lemma_entry_put_entries(e, d, x, v);
    lemma_entry_put_blocks(e, d, x, v);
}

/// The FAT block of a cluster of the volume lies in the first FAT.
proof fn lemma_fat_block_in(e: Esp, y: u32)
    requires
        e.wf(),
        fat_covers_all(e),
        y <= e.max_cluster,
    ensures
        e.fat_start <= e.fat_block(y) < e.fat_start + e.fat_size,
        0 <= e.fat_pos(y) && e.fat_pos(y) + 4 <= 512 && e.fat_pos(y) % 4 == 0,
        y as int * 4 == 512 * ((y as int * 4) / 512) + e.fat_pos(y),
{
    assert((y as int * 4) / 512 < e.fat_size as int) by (nonlinear_arith)
        requires
            (e.max_cluster as int + 1) * 4 <= e.fat_size as int * 512,
            y <= e.max_cluster,
    ;
    assert((y as int * 4) % 512 % 4 == 0) by (nonlinear_arith);
    assert(y as int * 4 == 512 * ((y as int * 4) / 512) + (y as int * 4) % 512) by (nonlinear_arith);
}

#[verifier::spinoff_prover]
#[verifier::rlimit(40)]
proof fn lemma_entry_put_entries(e: Esp, d: Disk, x: u32, v: u32)
    requires
        e.wf(),
        fat_covers_all(e),
        2 <= x <= e.max_cluster,
        d(e.fat_block(x) as u64).len() == 512,
    ensures
        forall|y: u32| 2 <= y <= e.max_cluster && y != x ==> #[trigger] e.entry(e.entry_put(d, x, v), y) == e.entry(d, y),
        e.entry(e.entry_put(d, x, v), x) == v % 0x1000_0000,
{
    let d2 = e.entry_put(d, x, v);
    let s = e.fat_block(x);
    let pos = e.fat_pos(x);
    let blk = d(s as u64);
    lemma_fat_block_in(e, x);
    crate::bytes::lemma_le32_bounds(blk, pos);
    let old = le32(blk, pos);
    let nv = (old / 0x1000_0000) * 0x1000_0000 + v % 0x1000_0000;
    assert(0 <= nv <= u32::MAX);
    let buf = splice(blk, pos, le32_bytes(nv as u32));
    assert(d2(s as u64) == buf);
    lemma_le32_splice(blk, pos, nv as u32);
    assert(nv % 0x1000_0000 == v % 0x1000_0000);
    assert forall|y: u32| 2 <= y <= e.max_cluster && y != x implies #[trigger] e.entry(d2, y) == e.entry(d, y) by {
        lemma_fat_block_in(e, y);
        if e.fat_block(y) == s {
            lemma_le32_splice_other(blk, pos, nv as u32, e.fat_pos(y));
        }
    }
}

#[verifier::spinoff_prover]
#[verifier::rlimit(40)]
proof fn lemma_entry_put_blocks(e: Esp, d: Disk, x: u32, v: u32)
    requires
        e.wf(),
        fat_covers_all(e),
        2 <= x <= e.max_cluster,
    ensures
        forall|y: u32, k: int|
            2 <= y <= e.max_cluster && 0 <= k < e.spc ==> #[trigger] e.entry_put(d, x, v)((e.lba_of(y) + k) as u64) == d(
                (e.lba_of(y) + k) as u64,
            ),
{
    let s = e.fat_block(x);
    lemma_fat_block_in(e, x);
    assert forall|y: u32, k: int| 2 <= y <= e.max_cluster && 0 <= k < e.spc implies #[trigger] e.entry_put(d, x, v)(
        (e.lba_of(y) + k) as u64,
    ) == d((e.lba_of(y) + k) as u64) by {
        lemma_lba_bound(e, y);
        assert(e.num_fats > 1 ==> e.data_start == e.fat_start + 2 * e.fat_size);
        let l = (e.lba_of(y) + k) as u64;
        assert(l as int == e.lba_of(y) + k);
        assert(l != s as u64);
        assert(e.num_fats > 1 ==> l != (s + e.fat_size) as u64);
    }
}

/// Zeroing the blocks of cluster `x` keeps every entry and the blocks of every other cluster.
pub proof fn lemma_zeroed_same_but(e: Esp, d: Disk, x: u32)
    requires
        e.wf(),
        fat_covers_all(e),
        2 <= x <= e.max_cluster,
    ensures
        same_but(e, d, e.zeroed(d, x), x),
        forall|y: u32| 2 <= y <= e.max_cluster ==> #[trigger] e.entry(e.zeroed(d, x), y) == e.entry(d, y),
{
    lemma_blocks_outside_same_but(e, d, put_blocks(d, e.lba_of(x), crate::install::zero_bytes(512 * e.spc as nat), 512, e.spc as nat), x, crate::install::zero_bytes(512 * e.spc as nat));
}

/// Writing blocks within cluster `x` keeps every entry and the blocks of every other cluster.
proof fn lemma_blocks_outside_same_but(e: Esp, d: Disk, d2: Disk, x: u32, data: Seq<u8>)
    requires
        e.wf(),
        fat_covers_all(e),
        2 <= x <= e.max_cluster,
        d2 == put_blocks(d, e.lba_of(x), data, 512, e.spc as nat),
    ensures
        same_but(e, d, d2, x),
        forall|y: u32| 2 <= y <= e.max_cluster ==> #[trigger] e.entry(d2, y) == e.entry(d, y),
{
    lemma_lba_bound(e, x);
    assert forall|y: u32| 2 <= y <= e.max_cluster implies #[trigger] e.entry(d2, y) == e.entry(d, y) by {
        assert(e.fat_block(y) < e.fat_start + e.fat_size) by {
            assert((y as int * 4) / 512 < e.fat_size as int) by (nonlinear_arith)
                requires
                    (e.max_cluster as int + 1) * 4 <= e.fat_size as int * 512,
                    y <= e.max_cluster,
            ;
        }
        lemma_put_blocks_outside(d, e.lba_of(x), data, 512, e.spc as nat, e.fat_block(y) as u64);
    }
    assert forall|y: u32, k: int| 2 <= y <= e.max_cluster && y != x && 0 <= k < e.spc implies #[trigger] d2(
        (e.lba_of(y) + k) as u64,
    ) == d((e.lba_of(y) + k) as u64) by {
        lemma_lba_bound(e, y);
        lemma_apart(e, x, y, k);
        lemma_put_blocks_outside(d, e.lba_of(x), data, 512, e.spc as nat, (e.lba_of(y) + k) as u64);
    }
}

/// The blocks of a cluster lie past the FAT and within the block numbers.
proof fn lemma_lba_bound(e: Esp, c: u32)
    requires
        e.wf(),
        2 <= c,
    ensures
        e.lba_of(c) >= e.data_start,
        e.lba_of(c) + e.spc <= 0x100_0000_0000,
        e.data_start >= e.fat_start + e.fat_size,
{
    assert((c - 2) * e.spc >= 0) by (nonlinear_arith)
        requires
            c >= 2,
            e.spc >= 1,
    ;
    assert((c - 2) * e.spc + e.spc <= 0xFFFF_FFFF * 128) by (nonlinear_arith)
        requires
            c <= 0xFFFF_FFFF,
            e.spc <= 128,
            c >= 2,
    ;
}

/// Block `k` of cluster `y` lies outside cluster `x`.
proof fn lemma_apart(e: Esp, x: u32, y: u32, k: int)
    requires
        e.wf(),
        2 <= x,
        2 <= y,
        x != y,
        0 <= k < e.spc,
    ensures
        !(e.lba_of(x) <= e.lba_of(y) + k < e.lba_of(x) + e.spc),
{
    let spc = e.spc as int;
    if y < x {
        assert((y - 2) * spc + spc <= (x - 2) * spc) by (nonlinear_arith)
            requires
                y < x,
                y >= 2,
                spc >= 1,
        ;
    } else {
        assert((x - 2) * spc + spc <= (y - 2) * spc) by (nonlinear_arith)
            requires
                x < y,
                x >= 2,
                spc >= 1,
        ;
    }
}

/// Writing one block within cluster `x` keeps every entry and the blocks of every other
/// cluster.
pub proof fn lemma_block_put_same_but(e: Esp, d: Disk, x: u32, l: u64, b: Seq<u8>)
    requires
        e.wf(),
        fat_covers_all(e),
        2 <= x <= e.max_cluster,
        e.lba_of(x) <= l < e.lba_of(x) + e.spc,
    ensures
        same_but(e, d, disk_put(d, l, b), x),
        forall|y: u32| 2 <= y <= e.max_cluster ==> #[trigger] e.entry(disk_put(d, l, b), y) == e.entry(d, y),
{
    lemma_lba_bound(e, x);
    assert forall|y: u32| 2 <= y <= e.max_cluster implies #[trigger] e.entry(disk_put(d, l, b), y) == e.entry(d, y) by {
        assert(e.fat_block(y) < e.fat_start + e.fat_size) by {
            assert((y as int * 4) / 512 < e.fat_size as int) by (nonlinear_arith)
                requires
                    (e.max_cluster as int + 1) * 4 <= e.fat_size as int * 512,
                    y <= e.max_cluster,
            ;
        }
    }
    assert forall|y: u32, k: int| 2 <= y <= e.max_cluster && y != x && 0 <= k < e.spc implies #[trigger] disk_put(d, l, b)(
        (e.lba_of(y) + k) as u64,
    ) == d((e.lba_of(y) + k) as u64) by {
        lemma_lba_bound(e, y);
        lemma_apart(e, x, y, k);
    }
}

/// The free clusters of the volume are finitely many; one of them can be named when there
/// is at least one; and a change that keeps every entry but `x`'s keeps free every free
/// cluster but `x`.
pub proof fn lemma_esp_free(e: Esp, d: Disk, d2: Disk, x: u32)
    requires
        e.wf(),
        forall|y: u32| 2 <= y <= e.max_cluster && y != x ==> #[trigger] e.entry(d2, y) == e.entry(d, y),
    ensures
        esp_free(e, d).finite(),
        esp_free(e, d).remove(x as int).subset_of(esp_free(e, d2)),
        esp_free(e, d).len() >= 1 ==> exists|y: u32| 2 <= y <= e.max_cluster && #[trigger] e.entry(d, y) == 0,
{
    lemma_int_range(2, e.max_cluster as int + 1);
    lemma_len_subset(esp_free(e, d), set_int_range(2, e.max_cluster as int + 1));
    assert forall|y: int| esp_free(e, d).remove(x as int).contains(y) implies #[trigger] esp_free(e, d2).contains(y) by {
        assert(e.entry(d2, y as u32) == e.entry(d, y as u32));
    }
    if esp_free(e, d).len() >= 1 {
        let y = esp_free(e, d).choose();
        assert(esp_free(e, d).contains(y));
        assert(e.entry(d, y as u32) == 0);
    }
}

/// At most one free cluster is lost when every free cluster but `x` stays free.
pub proof fn lemma_esp_free_shrink(e: Esp, d: Disk, d2: Disk, x: u32)
    requires
        e.wf(),
        esp_free(e, d).remove(x as int).subset_of(esp_free(e, d2)),
    ensures
        esp_free(e, d2).len() >= esp_free(e, d).len() - 1,
{
    lemma_int_range(2, e.max_cluster as int + 1);
    lemma_len_subset(esp_free(e, d), set_int_range(2, e.max_cluster as int + 1));
    lemma_len_subset(esp_free(e, d2), set_int_range(2, e.max_cluster as int + 1));
    lemma_len_subset(esp_free(e, d).remove(x as int), esp_free(e, d2));
}

/// Whether writing `len` bytes as a new file of the directory at `dir` on `d` has what the
/// partition's writer needs: the FAT covers every cluster; the directory's chain ends within
/// 4096 links, its clusters are in use, it holds no record named `name` and has a free record
/// (or room to grow) along its first 4097 clusters; and enough clusters are free for the data
/// (one at least).
#[verifier::opaque]
pub open spec fn esp_ready(e: Esp, d: Disk, dir: u32, name: Seq<u8>, len: int) -> bool {
    &&& fat_covers_all(e)
    &&& !e.links(d, dir, 4097)
    &&& e.name_absent(d, dir, name)
    &&& e.free_within(d, dir, 4097)
    &&& busy_chain(e, d, dir, 4097)
    &&& esp_free(e, d).len() >= (if len == 0 { 1 } else { (len + e.spc * 512 - 1) / (e.spc * 512) })
}

/// Taking the free cluster `x` (its entry set to end a chain, its blocks zeroed) keeps the
/// directory's chain, takes at most one free cluster, and leaves `x` in use.
pub proof fn lemma_esp_alloc(e: Esp, d0: Disk, d: Disk, d1: Disk, x: u32, dir: u32)
    requires
        e.wf(),
        fat_covers_all(e),
        kept_chain(e, d0, d, dir, 4097),
        busy_chain(e, d0, dir, 4097),
        2 <= x <= e.max_cluster,
        e.entry(d, x) == 0,
        d(e.fat_block(x) as u64).len() == 512,
        d1 == e.zeroed(e.entry_put(d, x, EOC), x),
    ensures
        kept_chain(e, d0, d1, dir, 4097),
        !in_chain(e, d0, dir, 4097, x),
        esp_free(e, d1).len() >= esp_free(e, d).len() - 1,
        e.entry(d1, x) != 0,
        e.entry(d1, x) == 0x0FFF_FFFF,
        forall|y: u32| 2 <= y <= e.max_cluster && y != x ==> #[trigger] e.entry(d1, y) == e.entry(d, y),
{
    let da = e.entry_put(d, x, EOC);
    lemma_entry_put_same_but(e, d, x, EOC);
    lemma_zeroed_same_but(e, da, x);
    assert(same_but(e, d, d1, x)) by {
        assert forall|y: u32, k: int| 2 <= y <= e.max_cluster && y != x && 0 <= k < e.spc implies #[trigger] d1(
            (e.lba_of(y) + k) as u64,
        ) == d((e.lba_of(y) + k) as u64) by {
            assert(da((e.lba_of(y) + k) as u64) == d((e.lba_of(y) + k) as u64));
        }
    }
    lemma_free_not_in_chain(e, d0, d, dir, 4097, x);
    lemma_kept_step(e, d0, d, d1, dir, 4097, x);
    lemma_esp_free(e, d, d1, x);
    lemma_esp_free_shrink(e, d, d1, x);
}

/// Setting the entry of a cluster `x` in use and off the directory's chain keeps the chain
/// and every free cluster.
#[verifier::spinoff_prover]
pub proof fn lemma_esp_link(e: Esp, d0: Disk, d: Disk, d1: Disk, x: u32, v: u32, dir: u32)
    requires
        e.wf(),
        fat_covers_all(e),
        kept_chain(e, d0, d, dir, 4097),
        !in_chain(e, d0, dir, 4097, x),
        2 <= x <= e.max_cluster,
        e.entry(d, x) != 0,
        d(e.fat_block(x) as u64).len() == 512,
        d1 == e.entry_put(d, x, v),
    ensures
        kept_chain(e, d0, d1, dir, 4097),
        esp_free(e, d1).len() >= esp_free(e, d).len(),
        forall|y: u32| 2 <= y <= e.max_cluster && y != x ==> #[trigger] e.entry(d1, y) == e.entry(d, y),
        e.entry(d1, x) == v % 0x1000_0000,
{
    lemma_entry_put_same_but(e, d, x, v);
    lemma_kept_step(e, d0, d, d1, dir, 4097, x);
    lemma_esp_free(e, d, d1, x);
    lemma_esp_free(e, d1, d1, x);
    assert(!esp_free(e, d).contains(x as int));
    assert(esp_free(e, d).remove(x as int) =~= esp_free(e, d));
    lemma_len_subset(esp_free(e, d), esp_free(e, d1));
}

/// Writing a block of a cluster off the directory's chain keeps the chain and every entry.
pub proof fn lemma_esp_block(e: Esp, d0: Disk, d: Disk, x: u32, l: u64, b: Seq<u8>, dir: u32)
    requires
        e.wf(),
        fat_covers_all(e),
        kept_chain(e, d0, d, dir, 4097),
        !in_chain(e, d0, dir, 4097, x),
        2 <= x <= e.max_cluster,
        e.lba_of(x) <= l < e.lba_of(x) + e.spc,
    ensures
        kept_chain(e, d0, disk_put(d, l, b), dir, 4097),
        forall|y: u32| 2 <= y <= e.max_cluster ==> #[trigger] e.entry(disk_put(d, l, b), y) == e.entry(d, y),
{
    lemma_block_put_same_but(e, d, x, l, b);
    lemma_kept_step(e, d0, d, disk_put(d, l, b), dir, 4097, x);
}

/// Partitions of the same geometry read and write the FAT and clusters alike.
pub proof fn lemma_geom_ops(e1: Esp, e2: Esp, d: Disk, x: u32, v: u32)
    requires
        e1.same_geom(&e2),
        e1.wf(),
    ensures
        e1.entry_put(d, x, v) == e2.entry_put(d, x, v),
        e1.zeroed(d, x) == e2.zeroed(d, x),
        forall|y: u32| #[trigger] e1.entry(d, y) == e2.entry(d, y),
{
    assert(e1.entry_put(d, x, v) =~= e2.entry_put(d, x, v));
    assert(e1.zeroed(d, x) =~= e2.zeroed(d, x));
}

/// The cluster `g` links along the chain from `c` is one of its first `n` clusters.
pub proof fn lemma_hop_in_chain(e: Esp, d: Disk, c: u32, n: nat, g: nat)
    requires
        e.links(d, c, g),
        g < n,
        2 <= e.hop(d, c, g) <= e.max_cluster,
    ensures
        in_chain(e, d, c, n, e.hop(d, c, g)),
    decreases g,
{
    if g > 0 {
        lemma_hop_in_chain(e, d, e.entry(d, c) as u32, (n - 1) as nat, (g - 1) as nat);
    }
}

/// A cluster on a kept chain was on it before.
pub proof fn lemma_in_chain_kept(e: Esp, d0: Disk, d: Disk, c: u32, n: nat, x: u32)
    requires
        kept_chain(e, d0, d, c, n),
        in_chain(e, d, c, n, x),
    ensures
        in_chain(e, d0, c, n, x),
    decreases n,
{
    if n > 0 && 2 <= c <= e.max_cluster && c != x {
        lemma_in_chain_kept(e, d0, d, e.entry(d0, c) as u32, (n - 1) as nat, x);
    }
}

/// Partitions of the same geometry see the same chains.
pub proof fn lemma_in_chain_geom(e1: Esp, e2: Esp, d: Disk, c: u32, n: nat, x: u32)
    requires
        e1.same_geom(&e2),
        e1.wf(),
    ensures
        in_chain(e1, d, c, n, x) == in_chain(e2, d, c, n, x),
    decreases n,
{
    lemma_geom_ops(e1, e2, d, c, 0);
    if n > 0 {
        lemma_in_chain_geom(e1, e2, d, e1.entry(d, c) as u32, (n - 1) as nat, x);
    }
}

/// Block `t` of data stored `512` bytes a block: the bytes of `data` from `512 * t` on, as many
/// as fit, padded with zeros.
pub open spec fn esp_piece(data: Seq<u8>, t: int) -> Seq<u8> {
    Seq::new(512, |i: int| if t * 512 + i < data.len() { data[t * 512 + i] } else { 0u8 })
}

/// Whether, on `d`, the clusters `cs` form a chain that ends with the end mark and holds
/// `data` block by block, padded with zeros.
pub open spec fn esp_stores(e: Esp, d: Disk, cs: Seq<u32>, data: Seq<u8>) -> bool {
    &&& cs.len() > 0
    &&& forall|j: int| 0 <= j < cs.len() ==> 2 <= #[trigger] cs[j] <= e.max_cluster
    &&& forall|j: int| 0 <= j < cs.len() - 1 ==> e.entry(d, #[trigger] cs[j]) == cs[j + 1]
    &&& e.entry(d, cs.last()) == 0x0FFF_FFFF
    &&& forall|j: int, s: int|
        0 <= j < cs.len() && 0 <= s < e.spc ==> #[trigger] d((e.lba_of(cs[j]) + s) as u64) == esp_piece(data, j * e.spc + s)
}

/// A block made of zeros with the bytes of `data` from `off` to `end` at its start is block
/// `t` of the data when `off` is where that block starts (or past the data).
pub proof fn lemma_piece_block(data: Seq<u8>, off: int, end: int, t: int, b: Seq<u8>)
    requires
        off == (if t * 512 < data.len() { t * 512 } else { data.len() as int }),
        t >= 0,
        off < data.len() ==> end == (if data.len() - off > 512 { off + 512 } else { data.len() as int }) && b == splice(
            Seq::new(512, |i: int| 0u8),
            0,
            data.subrange(off, end),
        ),
        off >= data.len() ==> b == Seq::new(512, |i: int| 0u8),
    ensures
        b == esp_piece(data, t),
{
    assert(b =~= esp_piece(data, t));
}

/// A cluster on a chain is a cluster of the volume.
pub proof fn lemma_in_chain_range(e: Esp, d: Disk, c: u32, n: nat, x: u32)
    requires
        in_chain(e, d, c, n, x),
    ensures
        2 <= x <= e.max_cluster,
    decreases n,
{
    if c != x {
        lemma_in_chain_range(e, d, e.entry(d, c) as u32, (n - 1) as nat, x);
    }
}

/// What the directory's record write leaves of stored data: a block write within a cluster
/// of the directory's chain keeps the data, which lies in clusters off that chain.
#[verifier::spinoff_prover]
#[verifier::rlimit(40)]
pub proof fn lemma_stores_kept(e: Esp, d0: Disk, d: Disk, cs: Seq<u32>, data: Seq<u8>, dir: u32, c: u32, l: u64, b: Seq<u8>)
    requires
        e.wf(),
        fat_covers_all(e),
        esp_stores(e, d, cs, data),
        kept_chain(e, d0, d, dir, 4097),
        in_chain(e, d, dir, 4097, c),
        forall|j: int| 0 <= j < cs.len() ==> !in_chain(e, d0, dir, 4097, #[trigger] cs[j]),
        e.lba_of(c) <= l < e.lba_of(c) + e.spc,
    ensures
        esp_stores(e, disk_put(d, l, b), cs, data),
{
    lemma_in_chain_kept(e, d0, d, dir, 4097, c);
    lemma_in_chain_range(e, d, dir, 4097, c);
    lemma_block_put_same_but(e, d, c, l, b);
    let d2 = disk_put(d, l, b);
    assert forall|j: int| 0 <= j < cs.len() implies #[trigger] cs[j] != c by {
        assert(!in_chain(e, d0, dir, 4097, cs[j]));
    }
    assert forall|j: int| 0 <= j < cs.len() - 1 implies e.entry(d2, #[trigger] cs[j]) == cs[j + 1] by {
        assert(e.entry(d2, cs[j]) == e.entry(d, cs[j]));
    }
    assert(e.entry(d2, cs.last()) == e.entry(d, cs.last()));
    assert forall|j: int, s: int| 0 <= j < cs.len() && 0 <= s < e.spc implies #[trigger] d2((e.lba_of(cs[j]) + s) as u64)
        == esp_piece(data, j * e.spc + s) by {
        assert(cs[j] != c);
        assert(d2((e.lba_of(cs[j]) + s) as u64) == d((e.lba_of(cs[j]) + s) as u64));
    }
}

/// Whether, on `d`, the distinct clusters `cs` of the volume are linked one to the next, the
/// last ending the chain.
pub open spec fn esp_linked(e: Esp, d: Disk, cs: Seq<u32>) -> bool {
    &&& cs.len() > 0
    &&& forall|j: int| 0 <= j < cs.len() ==> 2 <= #[trigger] cs[j] <= e.max_cluster
    &&& forall|j: int| 0 <= j < cs.len() - 1 ==> e.entry(d, #[trigger] cs[j]) == cs[j + 1]
    &&& e.entry(d, cs.last()) == 0x0FFF_FFFF
    &&& forall|i: int, j: int| 0 <= i < j < cs.len() ==> cs[i] != cs[j]
}

/// Taking the free cluster `nx` and linking the chain's last cluster to it makes the chain
/// one cluster longer.
pub proof fn lemma_chain_grow(e: Esp, db: Disk, dc: Disk, dd: Disk, cs: Seq<u32>, nx: u32)
    requires
        esp_linked(e, db, cs),
        e.max_cluster < 0x0FFF_FFF0,
        2 <= nx <= e.max_cluster,
        e.entry(db, nx) == 0,
        forall|y: u32| 2 <= y <= e.max_cluster && y != nx ==> #[trigger] e.entry(dc, y) == e.entry(db, y),
        e.entry(dc, nx) == 0x0FFF_FFFF,
        forall|y: u32| 2 <= y <= e.max_cluster && y != cs.last() ==> #[trigger] e.entry(dd, y) == e.entry(dc, y),
        e.entry(dd, cs.last()) == nx % 0x1000_0000,
    ensures
        esp_linked(e, dd, cs.push(nx)),
{
    let c2 = cs.push(nx);
    assert forall|j: int| 0 <= j < cs.len() implies #[trigger] cs[j] != nx by {
        if j < cs.len() - 1 {
            assert(e.entry(db, cs[j]) == cs[j + 1]);
        } else {
            assert(cs[j] == cs.last());
        }
    }
    assert forall|j: int| 0 <= j < c2.len() - 1 implies e.entry(dd, #[trigger] c2[j]) == c2[j + 1] by {
        if j < cs.len() - 1 {
            assert(cs[j] != cs.last()) by {
                assert(cs.last() == cs[cs.len() - 1]);
            }
            assert(e.entry(dd, cs[j]) == e.entry(dc, cs[j]));
            assert(e.entry(dc, cs[j]) == e.entry(db, cs[j]));
        } else {
            assert(c2[j] == cs.last());
        }
    }
    assert(e.entry(dd, nx) == e.entry(dc, nx)) by {
        assert(nx != cs.last());
    }
}

/// Writing block `t` of the data into block `s` of the `ci`-th cluster of a linked chain
/// keeps the chain and every block written before.
pub proof fn lemma_data_block(e: Esp, d: Disk, cs: Seq<u32>, data: Seq<u8>, ci: int, s: int, b: Seq<u8>)
    requires
        e.wf(),
        fat_covers_all(e),
        esp_linked(e, d, cs),
        0 <= ci < cs.len(),
        0 <= s < e.spc,
        b == esp_piece(data, ci * e.spc + s),
        forall|j: int, s2: int|
            0 <= j < cs.len() && 0 <= s2 < e.spc && (j < ci || (j == ci && s2 < s)) ==> #[trigger] d(
                (e.lba_of(cs[j]) + s2) as u64,
            ) == esp_piece(data, j * e.spc + s2),
    ensures
        esp_linked(e, disk_put(d, (e.lba_of(cs[ci]) + s) as u64, b), cs),
        forall|j: int, s2: int|
            0 <= j < cs.len() && 0 <= s2 < e.spc && (j < ci || (j == ci && s2 <= s)) ==> #[trigger] disk_put(
                d,
                (e.lba_of(cs[ci]) + s) as u64,
                b,
            )((e.lba_of(cs[j]) + s2) as u64) == esp_piece(data, j * e.spc + s2),
{
    let x = cs[ci];
    let l = (e.lba_of(x) + s) as u64;
    lemma_lba_bound(e, x);
    lemma_block_put_same_but(e, d, x, l, b);
    let d2 = disk_put(d, l, b);
    assert forall|j: int| 0 <= j < cs.len() - 1 implies e.entry(d2, #[trigger] cs[j]) == cs[j + 1] by {
        assert(e.entry(d2, cs[j]) == e.entry(d, cs[j]));
    }
    assert(e.entry(d2, cs.last()) == e.entry(d, cs.last()));
    assert forall|j: int, s2: int|
        0 <= j < cs.len() && 0 <= s2 < e.spc && (j < ci || (j == ci && s2 <= s)) implies #[trigger] d2(
            (e.lba_of(cs[j]) + s2) as u64,
        ) == esp_piece(data, j * e.spc + s2) by {
        if j == ci {
            lemma_lba_bound(e, x);
            if s2 < s {
                assert((e.lba_of(x) + s2) as u64 != l);
            }
        } else {
            assert(cs[j] != x);
            assert(d2((e.lba_of(cs[j]) + s2) as u64) == d((e.lba_of(cs[j]) + s2) as u64));
        }
    }
}

} // verus!
