use vstd::prelude::*;
use crate::bootinfo::MemoryRegion;

verus! {

/// Size of a page.
pub const PAGE_SIZE: u64 = 4096;
/// Size of a 2 MiB page.
pub const PAGE_SIZE_2MB: u64 = 0x20_0000;
/// Size of a 1 GiB page.
pub const PAGE_SIZE_1GB: u64 = 0x4000_0000;
/// Where physical memory is mapped in the higher half.
pub const HHDM_OFFSET: u64 = 0xFFFF_8000_0000_0000;
/// Largest block order: blocks of 2^20 pages.
pub const MAX_ORDER: usize = 20;

/// Bytes in a block of order `o`: a page doubled `o` times.
pub open spec fn block_size(o: nat) -> nat
    decreases o,
{
    if o == 0 {
        4096
    } else {
        2 * block_size((o - 1) as nat)
    }
}

/// Block sizes grow with the order.
pub proof fn lemma_block_size_mono(a: nat, b: nat)
    requires
        a <= b,
    ensures
        block_size(a) <= block_size(b),
    decreases b,
{
    if b > a {
        lemma_block_size_mono(a, (b - 1) as nat);
    }
}

pub proof fn lemma_block_size_bounds(o: nat)
    requires
        o <= 20,
    ensures
        4096 <= block_size(o) <= 0x1_0000_0000,
        block_size(o) % 4096 == 0,
{
    lemma_block_size_mono(0, o);
    lemma_block_size_mono(o, 20);
    assert(block_size(20) == 0x1_0000_0000) by {
        reveal_with_fuel(block_size, 21);
    }
    lemma_block_size_divides(0, o);
}

proof fn lemma_block_size_le(o: nat)
    requires
        o < 20,
    ensures
        block_size(o) <= 0x8000_0000,
{
    lemma_block_size_mono(o, 19);
    assert(block_size(19) == 0x8000_0000) by {
        reveal_with_fuel(block_size, 20);
    }
}

/// A block size divides every larger one.
pub proof fn lemma_block_size_divides(k: nat, c: nat)
    requires
        k <= c,
    ensures
        block_size(c) % block_size(k) == 0,
    decreases c,
{
    lemma_block_size_bounds_any(k);
    if c > k {
        lemma_block_size_divides(k, (c - 1) as nat);
        let a = block_size((c - 1) as nat);
        let b = block_size(k);
        vstd::arithmetic::div_mod::lemma_fundamental_div_mod(a as int, b as int);
        assert(2 * a == (2 * (a / b)) * b) by (nonlinear_arith)
            requires
                a == b * (a / b) + a % b,
                a % b == 0,
        ;
        vstd::arithmetic::div_mod::lemma_mod_multiples_basic(2 * (a / b) as int, b as int);
    } else {
        vstd::arithmetic::div_mod::lemma_mod_self_0(block_size(k) as int);
    }
}

pub proof fn lemma_block_size_bounds_any(o: nat)
    ensures
        block_size(o) >= 4096,
    decreases o,
{
    if o > 0 {
        lemma_block_size_bounds_any((o - 1) as nat);
    }
}

/// Bytes in a block of order `order`.
pub fn block_bytes(order: usize) -> (r: u64)
    requires
        order <= MAX_ORDER,
    ensures
        r == block_size(order as nat),
        4096 <= r <= 0x1_0000_0000,
{
    let mut r: u64 = PAGE_SIZE;
    let mut k: usize = 0;
    while k < order
        invariant
            k <= order <= 20,
            r == block_size(k as nat),
        decreases order - k,
    {
        proof {
            lemma_block_size_le(k as nat);
        }
        r = r * 2;
        k = k + 1;
    }
    proof {
        lemma_block_size_bounds(order as nat);
    }
    r
}

/// The free blocks of one order, by address; the most recently added last.
pub struct FreeList {
    pub blocks: Vec<u64>,
}

impl FreeList {
    /// An empty list.
    pub fn new() -> (r: FreeList)
        ensures
            r.blocks@ == Seq::<u64>::empty(),
    {
        FreeList { blocks: Vec::new() }
    }
}

/// Total bytes of the blocks in the first `n` lists.
pub open spec fn free_bytes(lists: Seq<Seq<u64>>, n: nat) -> int
    decreases n,
{
    if n == 0 {
        0
    } else {
        free_bytes(lists, (n - 1) as nat) + lists[n - 1].len() * block_size((n - 1) as nat)
    }
}

/// Changing one list changes the total by the size of the blocks added or taken away.
pub proof fn lemma_free_bytes_update(lists: Seq<Seq<u64>>, n: nat, o: int, t: Seq<u64>)
    requires
        0 <= o < n <= lists.len(),
    ensures
        free_bytes(lists.update(o, t), n) == free_bytes(lists, n) + (t.len() - lists[o].len()) * block_size(
            o as nat,
        ),
    decreases n,
{
    let l2 = lists.update(o, t);
    if n - 1 == o {
        if n > 1 {
            lemma_free_bytes_same(lists, l2, (n - 1) as nat);
        } else {
            lemma_free_bytes_same(lists, l2, 0);
        }
        assert(t.len() * block_size(o as nat) == lists[o].len() * block_size(o as nat) + (t.len()
            - lists[o].len()) * block_size(o as nat)) by (nonlinear_arith);
    } else {
        lemma_free_bytes_update(lists, (n - 1) as nat, o, t);
    }
}

proof fn lemma_free_bytes_same(a: Seq<Seq<u64>>, b: Seq<Seq<u64>>, n: nat)
    requires
        n <= a.len(),
        n <= b.len(),
        forall|k: int| 0 <= k < n ==> a[k] == b[k],
    ensures
        free_bytes(a, n) == free_bytes(b, n),
    decreases n,
{
    if n > 0 {
        lemma_free_bytes_same(a, b, (n - 1) as nat);
    }
}

pub proof fn lemma_free_bytes_nonneg(lists: Seq<Seq<u64>>, n: nat)
    ensures
        free_bytes(lists, n) >= 0,
    decreases n,
{
    if n > 0 {
        lemma_free_bytes_nonneg(lists, (n - 1) as nat);
        lemma_block_size_bounds_any((n - 1) as nat);
        assert(lists[n - 1].len() * block_size((n - 1) as nat) >= 0) by (nonlinear_arith);
    }
}

/// `s` without its most recently added occurrence of `a`, if it holds `a`.
pub open spec fn remove_latest(s: Seq<u64>, a: u64) -> Option<Seq<u64>>
    decreases s.len(),
{
    if s.len() == 0 {
        None
    } else if s.last() == a {
        Some(s.drop_last())
    } else {
        match remove_latest(s.drop_last(), a) {
            Some(t) => Some(t.push(s.last())),
            None => None,
        }
    }
}

proof fn lemma_remove_latest_at(s: Seq<u64>, a: u64, i: int)
    requires
        0 <= i < s.len(),
        s[i] == a,
        forall|j: int| i < j < s.len() ==> s[j] != a,
    ensures
        remove_latest(s, a) == Some(s.remove(i)),
    decreases s.len(),
{
    if i < s.len() - 1 {
        lemma_remove_latest_at(s.drop_last(), a, i);
        assert(s.drop_last().remove(i).push(s.last()) =~= s.remove(i));
    } else {
        assert(s.drop_last() =~= s.remove(i));
    }
}

proof fn lemma_remove_latest_none(s: Seq<u64>, a: u64)
    requires
        forall|j: int| 0 <= j < s.len() ==> s[j] != a,
    ensures
        remove_latest(s, a) is None,
    decreases s.len(),
{
    if s.len() > 0 {
        lemma_remove_latest_none(s.drop_last(), a);
    }
}

proof fn lemma_remove_latest_len(s: Seq<u64>, a: u64)
    ensures
        remove_latest(s, a) matches Some(t) ==> t.len() + 1 == s.len(),
    decreases s.len(),
{
    if s.len() > 0 {
        lemma_remove_latest_len(s.drop_last(), a);
    }
}

/// The first order from `order` on whose list holds a block.
pub open spec fn first_nonempty(lists: Seq<Seq<u64>>, order: int) -> Option<int>
    decreases 21 - order,
{
    if order > 20 || order < 0 {
        None
    } else if lists[order].len() > 0 {
        Some(order)
    } else {
        first_nonempty(lists, order + 1)
    }
}

/// The lists after a block of order `order` is carved from block `a` of order `c`: `a`
/// leaves list `c`, and each order `k` from `order` to `c - 1` gets the upper half
/// `a + block_size(k)` of the block split at that order.
pub open spec fn split_lists(lists: Seq<Seq<u64>>, a: u64, c: int, order: int) -> Seq<Seq<u64>> {
    Seq::new(
        lists.len(),
        |k: int|
            if k == c {
                lists[c].drop_last()
            } else if order <= k < c {
                lists[k].push((a + block_size(k as nat)) as u64)
            } else {
                lists[k]
            },
    )
}

/// The lists after the block at `addr` of order `order` is freed: while its buddy (the block
/// it pairs with at that order) is free, the two merge into a block of the next order; the
/// resulting block goes to its list.
pub open spec fn coalesce(lists: Seq<Seq<u64>>, addr: u64, order: int) -> Seq<Seq<u64>>
    decreases 20 - order,
{
    if 0 <= order < 20 {
        let b = addr ^ (block_size(order as nat) as u64);
        match remove_latest(lists[order], b) {
            Some(t) => coalesce(lists.update(order, t), if addr < b { addr } else { b }, order + 1),
            None => lists.update(order, lists[order].push(addr)),
        }
    } else {
        lists.update(order, lists[order].push(addr))
    }
}

/// The size of the block that `coalesce` finally puts on a list, less the size freed: the
/// bytes of the buddies merged into it.
pub proof fn lemma_coalesce_bytes(lists: Seq<Seq<u64>>, addr: u64, order: int)
    requires
        0 <= order <= 20,
        lists.len() == 21,
    ensures
        coalesce(lists, addr, order).len() == 21,
        free_bytes(coalesce(lists, addr, order), 21) == free_bytes(lists, 21) + block_size(order as nat),
    decreases 20 - order,
{
    if order < 20 {
        let b = addr ^ (block_size(order as nat) as u64);
        match remove_latest(lists[order], b) {
            Some(t) => {
                lemma_remove_latest_len(lists[order], b);
                lemma_free_bytes_update(lists, 21, order, t);
                let m = if addr < b { addr } else { b };
                lemma_coalesce_bytes(lists.update(order, t), m, order + 1);
                assert(block_size((order + 1) as nat) == 2 * block_size(order as nat));
                assert((t.len() - lists[order].len()) * block_size(order as nat) == -block_size(order as nat))
                    by (nonlinear_arith)
                    requires
                        t.len() + 1 == lists[order].len(),
                ;
            },
            None => {
                lemma_free_bytes_update(lists, 21, order, lists[order].push(addr));
                assert((lists[order].push(addr).len() - lists[order].len()) * block_size(order as nat)
                    == block_size(order as nat)) by (nonlinear_arith)
                    requires
                        lists[order].push(addr).len() == lists[order].len() + 1,
                ;
            },
        }
    } else {
        lemma_free_bytes_update(lists, 21, order, lists[order].push(addr));
        assert((lists[order].push(addr).len() - lists[order].len()) * block_size(order as nat)
            == block_size(order as nat)) by (nonlinear_arith)
            requires
                lists[order].push(addr).len() == lists[order].len() + 1,
        ;
    }
}

/// The order of the block that starts at page `idx` when `rem` pages remain: the largest
/// order up to `k` whose block both starts there (page index a multiple of its page count)
/// and fits.
pub open spec fn fit_order(idx: int, rem: int, k: nat) -> nat
    decreases k,
{
    if k == 0 {
        0
    } else if idx % (block_size(k) / 4096) as int == 0 && block_size(k) / 4096 <= rem {
        k
    } else {
        fit_order(idx, rem, (k - 1) as nat)
    }
}

/// The lists after the range `base..end` is cut into blocks, from the bottom up, each the
/// largest that starts at its place and fits.
pub open spec fn carve(lists: Seq<Seq<u64>>, base: int, end: int) -> Seq<Seq<u64>>
    decreases end - base,
    via carve_decreases
{
    if base < 0 || base >= end || end - base < 4096 {
        lists
    } else {
        let o = fit_order(base / 4096, (end - base) / 4096, 20);
        carve(lists.update(o as int, lists[o as int].push(base as u64)), base + block_size(o), end)
    }
}

/// The order `fit_order` picks gives a block that starts at page `idx` and fits in `rem`
/// pages (when at least one page remains).
pub proof fn lemma_fit_order(idx: int, rem: int, k: nat)
    requires
        rem >= 1,
        k <= 20,
    ensures
        fit_order(idx, rem, k) <= k,
        block_size(fit_order(idx, rem, k)) / 4096 <= rem,
        idx % (block_size(fit_order(idx, rem, k)) / 4096) as int == 0,
        block_size(fit_order(idx, rem, k)) == (block_size(fit_order(idx, rem, k)) / 4096) * 4096,
    decreases k,
{
    if k > 0 && !(idx % (block_size(k) / 4096) as int == 0 && block_size(k) / 4096 <= rem) {
        lemma_fit_order(idx, rem, (k - 1) as nat);
    } else {
        lemma_block_size_bounds(fit_order(idx, rem, k));
        if k == 0 {
            assert(block_size(0) == 4096);
        }
    }
}

#[via_fn]
proof fn carve_decreases(lists: Seq<Seq<u64>>, base: int, end: int) {
    if !(base < 0 || base >= end || end - base < 4096) {
        let rem = (end - base) / 4096;
        lemma_fit_order(base / 4096, rem, 20);
        let o = fit_order(base / 4096, rem, 20);
        lemma_block_size_bounds(o);
        assert(block_size(o) <= rem * 4096) by (nonlinear_arith)
            requires
                block_size(o) == (block_size(o) / 4096) * 4096,
                block_size(o) / 4096 <= rem,
        ;
        assert(rem * 4096 <= end - base);
    }
}

/// The page-aligned range a usable region covers, above the first megabyte: its start
/// rounded up, its end (saturated) rounded down.
pub open spec fn region_range(r: MemoryRegion) -> (int, int) {
    let start = (r.start + 4095) / 4096 * 4096;
    let e = r.start + r.page_count * 4096;
    let end_bytes = if e > u64::MAX { u64::MAX as int } else { e };
    let end = end_bytes / 4096 * 4096;
    let base = if start < 0x10_0000 { 0x10_0000 } else { start };
    (base, end)
}

/// The lists after the usable regions of `rs` are carved, in order.
pub open spec fn carve_regions(lists: Seq<Seq<u64>>, rs: Seq<MemoryRegion>) -> Seq<Seq<u64>>
    decreases rs.len(),
{
    if rs.len() == 0 {
        lists
    } else {
        let prev = carve_regions(lists, rs.drop_last());
        let r = rs.last();
        if r.usable != 1 {
            prev
        } else {
            carve(prev, region_range(r).0, region_range(r).1)
        }
    }
}

/// Bytes the usable regions of `rs` span (an upper bound of what they add).
pub open spec fn regions_span(rs: Seq<MemoryRegion>) -> int
    decreases rs.len(),
{
    if rs.len() == 0 {
        0
    } else {
        regions_span(rs.drop_last()) + if rs.last().usable == 1 {
            rs.last().page_count * 4096
        } else {
            0
        }
    }
}

/// Bytes the usable regions of `rs` give the allocator: the length of each one's page-aligned
/// range (see `region_range`), nothing for an empty range.
pub open spec fn regions_taken(rs: Seq<MemoryRegion>) -> int
    decreases rs.len(),
{
    if rs.len() == 0 {
        0
    } else {
        regions_taken(rs.drop_last()) + if rs.last().usable == 1 && region_range(rs.last()).0 < region_range(
            rs.last(),
        ).1 {
            region_range(rs.last()).1 - region_range(rs.last()).0
        } else {
            0
        }
    }
}

/// Every block ends within the 64-bit address space.
pub open spec fn blocks_fit(lists: Seq<Seq<u64>>) -> bool {
    forall|o: int, i: int| 0 <= o < lists.len() && 0 <= i < lists[o].len() ==> #[trigger] lists[o][i] + block_size(o as nat) <= u64::MAX
}

/// A buddy allocator of physical pages: one free list per order, the bytes it was given and
/// the bytes now free.
pub struct BuddyAllocator {
    pub free_lists: Vec<FreeList>,
    pub total_memory: u64,
    pub free_memory: u64,
}

impl BuddyAllocator {
    /// The free lists, by order.
    pub open spec fn lists(&self) -> Seq<Seq<u64>> {
        self.free_lists@.map_values(|l: FreeList| l.blocks@)
    }

    /// One list per order; the free byte count is the size of the blocks on them; every
    /// block lies within the address space.
    pub open spec fn wf(&self) -> bool {
        &&& self.free_lists@.len() == MAX_ORDER + 1
        &&& self.free_memory == free_bytes(self.lists(), 21)
        &&& blocks_fit(self.lists())
    }

    /// No memory.
    pub fn new() -> (r: BuddyAllocator)
        ensures
            r.wf(),
            r.total_memory == 0,
            r.free_memory == 0,
            forall|o: int| 0 <= o <= 20 ==> (#[trigger] r.lists()[o]).len() == 0,
    {
        let mut free_lists: Vec<FreeList> = Vec::new();
        let mut i: usize = 0;
        while i <= MAX_ORDER
            invariant
                i <= 21,
                free_lists@.len() == i,
                forall|o: int| 0 <= o < i ==> (#[trigger] free_lists@[o]).blocks@.len() == 0,
            decreases 21 - i,
        {
            free_lists.push(FreeList::new());
            i = i + 1;
        }
        let r = BuddyAllocator { free_lists, total_memory: 0, free_memory: 0 };
        proof {
            lemma_free_bytes_zero(r.lists(), 21);
            assert(blocks_fit(r.lists()));
        }
        r
    }

    /// The block that pairs with the block at `addr` of order `order`.
    pub fn buddy_of(&self, addr: u64, order: usize) -> (r: u64)
        requires
            order <= MAX_ORDER,
        ensures
            r == addr ^ (block_size(order as nat) as u64),
    {
        let block_size = block_bytes(order);
        addr ^ block_size
    }

    /// Puts the block at `addr` on the list of order `order`.
    fn push_to_list(&mut self, addr: u64, order: usize)
        requires
            order <= MAX_ORDER,
            old(self).free_lists@.len() == MAX_ORDER + 1,
        ensures
            final(self).free_lists@.len() == MAX_ORDER + 1,
            final(self).lists() == old(self).lists().update(order as int, old(self).lists()[order as int].push(addr)),
            final(self).total_memory == old(self).total_memory,
            final(self).free_memory == old(self).free_memory,
    {
        self.free_lists[order].blocks.push(addr);
        assert(self.lists() =~= old(self).lists().update(order as int, old(self).lists()[order as int].push(addr)));
    }

    /// Takes the most recently added block at `addr` off the list of order `order`; whether
    /// it was there.
    fn remove_from_list(&mut self, addr: u64, order: usize) -> (r: bool)
        requires
            order <= MAX_ORDER,
            old(self).free_lists@.len() == MAX_ORDER + 1,
        ensures
            final(self).free_lists@.len() == MAX_ORDER + 1,
            final(self).total_memory == old(self).total_memory,
            final(self).free_memory == old(self).free_memory,
            match remove_latest(old(self).lists()[order as int], addr) {
                Some(t) => r && final(self).lists() == old(self).lists().update(order as int, t),
                None => !r && final(self).lists() == old(self).lists(),
            },
    {
        let ghost s = self.lists()[order as int];
        let n = self.free_lists[order].blocks.len();
        let mut i = n;
        while i > 0
            invariant
                i <= n,
                n == s.len(),
                s == self.lists()[order as int],
                *self == *old(self),
                self.free_lists@.len() == MAX_ORDER + 1,
                order <= MAX_ORDER,
                forall|j: int| i <= j < n ==> s[j] != addr,
            decreases i,
        {
            if self.free_lists[order].blocks[i - 1] == addr {
                proof {
                    lemma_remove_latest_at(s, addr, i - 1);
                }
                self.free_lists[order].blocks.remove(i - 1);
                assert(self.lists() =~= old(self).lists().update(order as int, s.remove(i - 1)));
                return true;
            }
            i = i - 1;
        }
        proof {
            lemma_remove_latest_none(s, addr);
        }
        false
    }
}

proof fn lemma_free_bytes_zero(lists: Seq<Seq<u64>>, n: nat)
    requires
        n <= lists.len(),
        forall|o: int| 0 <= o < n ==> (#[trigger] lists[o]).len() == 0,
    ensures
        free_bytes(lists, n) == 0,
    decreases n,
{
    if n > 0 {
        lemma_free_bytes_zero(lists, (n - 1) as nat);
    }
}

} // verus!

verus! {

/// A block size as a shift of one page.
pub proof fn lemma_block_size_shift(o: nat)
    requires
        o <= 20,
    ensures
        block_size(o) == (4096u64 << (o as u64)),
    decreases o,
{
    if o == 0 {
        assert((4096u64 << 0u64) == 4096) by (bit_vector);
    } else {
        lemma_block_size_shift((o - 1) as nat);
        let k = (o - 1) as u64;
        assert((4096u64 << k) * 2 == (4096u64 << (k + 1))) by (bit_vector)
            requires
                k < 20,
        ;
    }
}

/// XOR with a block size moves to the neighbouring block of that size: up when the bit is
/// clear, down when it is set.
pub proof fn lemma_xor_block(x: u64, o: nat)
    requires
        o <= 20,
    ensures
        ({
            let b = block_size(o) as u64;
            &&& (x & b) == 0 ==> (x ^ b) == x + b
            &&& (x & b) != 0 ==> (x ^ b) == x - b && x >= b
        }),
{
    lemma_block_size_shift(o);
    let k = o as u64;
    assert(((x & (4096u64 << k)) == 0 ==> (x ^ (4096u64 << k)) == x + (4096u64 << k)) && ((x & (4096u64
        << k)) != 0 ==> (x ^ (4096u64 << k)) == x - (4096u64 << k) && x >= (4096u64 << k))) by (bit_vector)
        requires
            k <= 20,
    ;
}

/// Coalescing keeps every block within the address space.
pub proof fn lemma_coalesce_fits(lists: Seq<Seq<u64>>, addr: u64, order: int)
    requires
        0 <= order <= 20,
        lists.len() == 21,
        blocks_fit(lists),
        addr + block_size(order as nat) <= u64::MAX,
    ensures
        blocks_fit(coalesce(lists, addr, order)),
    decreases 20 - order,
{
    lemma_block_size_bounds(order as nat);
    if order < 20 {
        let bs = block_size(order as nat);
        let b = addr ^ (bs as u64);
        match remove_latest(lists[order], b) {
            Some(t) => {
                lemma_remove_latest_member(lists[order], b);
                let l2 = lists.update(order, t);
                lemma_remove_latest_sub(lists[order], b);
                assert(blocks_fit(l2)) by {
                    assert forall|o: int, i: int| 0 <= o < l2.len() && 0 <= i < l2[o].len() implies #[trigger] l2[o][i]
                        + block_size(o as nat) <= u64::MAX by {
                        if o == order {
                            let j = choose|j: int| 0 <= j < lists[order].len() && lists[order][j] == t[i];
                            assert(lists[o][j] + block_size(o as nat) <= u64::MAX);
                        }
                    }
                }
                let m = if addr < b { addr } else { b };
                lemma_xor_block(addr, order as nat);
                assert(block_size((order + 1) as nat) == 2 * bs);
                lemma_coalesce_fits(l2, m, order + 1);
            },
            None => {
                let l2 = lists.update(order, lists[order].push(addr));
                assert(blocks_fit(l2)) by {
                    assert forall|o: int, i: int| 0 <= o < l2.len() && 0 <= i < l2[o].len() implies #[trigger] l2[o][i]
                        + block_size(o as nat) <= u64::MAX by {
                        if o == order && i < lists[order].len() {
                            assert(lists[o][i] + block_size(o as nat) <= u64::MAX);
                        }
                    }
                }
            },
        }
    } else {
        let l2 = lists.update(order, lists[order].push(addr));
        assert(blocks_fit(l2)) by {
            assert forall|o: int, i: int| 0 <= o < l2.len() && 0 <= i < l2[o].len() implies #[trigger] l2[o][i]
                + block_size(o as nat) <= u64::MAX by {
                if o == order && i < lists[order].len() {
                    assert(lists[o][i] + block_size(o as nat) <= u64::MAX);
                }
            }
        }
    }
}

proof fn lemma_remove_latest_member(s: Seq<u64>, a: u64)
    ensures
        remove_latest(s, a) is Some ==> exists|j: int| 0 <= j < s.len() && s[j] == a,
    decreases s.len(),
{
    if s.len() > 0 && s.last() != a {
        lemma_remove_latest_member(s.drop_last(), a);
        if remove_latest(s, a) is Some {
            let j = choose|j: int| 0 <= j < s.drop_last().len() && s.drop_last()[j] == a;
            assert(s[j] == a);
        }
    } else if s.len() > 0 {
        assert(s[s.len() - 1] == a);
    }
}

proof fn lemma_remove_latest_sub(s: Seq<u64>, a: u64)
    ensures
        remove_latest(s, a) matches Some(t) ==> forall|i: int| 0 <= i < t.len() ==> exists|j: int| 0 <= j < s.len() && s[j] == #[trigger] t[i],
    decreases s.len(),
{
    if s.len() > 0 {
        lemma_remove_latest_sub(s.drop_last(), a);
        match remove_latest(s, a) {
            Some(t) => {
                assert forall|i: int| 0 <= i < t.len() implies exists|j: int| 0 <= j < s.len() && s[j] == #[trigger] t[i] by {
                    if s.last() == a {
                        assert(s[i] == t[i]);
                    } else {
                        if i == t.len() - 1 {
                            assert(s[s.len() - 1] == t[i]);
                        } else {
                            let t0 = remove_latest(s.drop_last(), a)->Some_0;
                            assert(t[i] == t0[i]);
                            let j = choose|j: int| 0 <= j < s.drop_last().len() && s.drop_last()[j] == t0[i];
                            assert(s[j] == t[i]);
                        }
                    }
                }
            },
            None => {},
        }
    }
}

/// The free bytes of the lists are at least those of any one list.
proof fn lemma_free_bytes_ge(lists: Seq<Seq<u64>>, n: nat, c: int)
    requires
        0 <= c < n <= lists.len(),
    ensures
        free_bytes(lists, n) >= lists[c].len() * block_size(c as nat),
    decreases n,
{
    lemma_free_bytes_nonneg(lists, (n - 1) as nat);
    lemma_block_size_bounds_any((n - 1) as nat);
    assert(lists[n - 1].len() * block_size((n - 1) as nat) >= 0) by (nonlinear_arith);
    if c < n - 1 {
        lemma_free_bytes_ge(lists, (n - 1) as nat, c);
    }
}

proof fn lemma_first_nonempty(lists: Seq<Seq<u64>>, order: int)
    requires
        0 <= order <= 21,
        lists.len() == 21,
    ensures
        match first_nonempty(lists, order) {
            Some(c) => order <= c <= 20 && lists[c].len() > 0 && forall|k: int| order <= k < c ==> #[trigger] lists[k].len() == 0,
            None => forall|k: int| order <= k <= 20 ==> #[trigger] lists[k].len() == 0,
        },
    decreases 21 - order,
{
    if order <= 20 && lists[order].len() == 0 {
        lemma_first_nonempty(lists, order + 1);
    }
}

impl BuddyAllocator {
    /// Takes a block of `2^order` pages: the most recently freed block of the smallest order
    /// that has one, from `order` on, split down to `order`; the upper halves split off go to
    /// the lists of their orders. `None` when no list from `order` on holds a block, or when
    /// `order` is above the largest.
    pub fn alloc_pages(&mut self, order: usize) -> (r: Option<u64>)
        requires
            old(self).wf(),
        ensures
            final(self).wf(),
            final(self).total_memory == old(self).total_memory,
            order > MAX_ORDER ==> r is None && final(self).lists() == old(self).lists(),
            order <= MAX_ORDER ==> match first_nonempty(old(self).lists(), order as int) {
                None => r is None && final(self).lists() == old(self).lists(),
                Some(c) => {
                    let a = old(self).lists()[c].last();
                    &&& r == Some(a)
                    &&& final(self).lists() == split_lists(old(self).lists(), a, c, order as int)
                    &&& final(self).free_memory == old(self).free_memory - block_size(order as nat)
                },
            },
            blocks_aligned(old(self).lists()) ==> blocks_aligned(final(self).lists()),
            blocks_aligned(old(self).lists()) && r is Some ==> aligned_to(r->Some_0 as int, order as nat),
    {
        if order > MAX_ORDER {
            return None;
        }
        let ghost l0 = self.lists();
        proof {
            lemma_first_nonempty(l0, order as int);
        }
        let mut current = order;
        while current <= MAX_ORDER
            invariant
                order <= current <= MAX_ORDER + 1,
                *self == *old(self),
                l0 == self.lists(),
                self.wf(),
                forall|k: int| order <= k < current ==> #[trigger] l0[k].len() == 0,
            decreases MAX_ORDER + 1 - current,
        {
            if self.free_lists[current].blocks.len() > 0 {
                proof {
                    lemma_first_nonempty(l0, order as int);
                    lemma_free_bytes_ge(l0, 21, current as int);
                    lemma_block_size_mono(order as nat, current as nat);
                    assert(l0[current as int].len() * block_size(current as nat) >= block_size(current as nat))
                        by (nonlinear_arith)
                        requires
                            l0[current as int].len() >= 1,
                    ;
                }
                let a = match self.free_lists[current].blocks.pop() {
                    Some(x) => x,
                    None => return None,
                };
                assert(self.lists() =~= l0.update(current as int, l0[current as int].drop_last()));
                assert(a == l0[current as int].last());
                assert(a + block_size(current as nat) <= u64::MAX) by {
                    assert(l0[current as int][l0[current as int].len() - 1] + block_size(current as nat) <= u64::MAX);
                }
                self.free_memory = self.free_memory - block_bytes(order);
                let mut k = current;
                while k > order
                    invariant
                        order <= k <= current <= MAX_ORDER,
                        self.free_lists@.len() == MAX_ORDER + 1,
                        self.total_memory == old(self).total_memory,
                        self.free_memory == old(self).free_memory - block_size(order as nat),
                        a + block_size(current as nat) <= u64::MAX,
                        self.lists() == Seq::new(
                            21,
                            |j: int|
                                if j == current {
                                    l0[current as int].drop_last()
                                } else if k <= j < current {
                                    l0[j].push((a + block_size(j as nat)) as u64)
                                } else {
                                    l0[j]
                                },
                        ),
                    decreases k - order,
                {
                    k = k - 1;
                    proof {
                        lemma_block_size_mono(k as nat, current as nat);
                    }
                    let b = a + block_bytes(k);
                    let ghost before = self.lists();
                    self.push_to_list(b, k);
                    assert(self.lists() =~= Seq::new(
                        21,
                        |j: int|
                            if j == current {
                                l0[current as int].drop_last()
                            } else if k <= j < current {
                                l0[j].push((a + block_size(j as nat)) as u64)
                            } else {
                                l0[j]
                            },
                    ));
                }
                proof {
                    let fin = split_lists(l0, a, current as int, order as int);
                    assert(self.lists() =~= fin);
                    self.lemma_split_wf(l0, a, current as int, order as int);
                    if blocks_aligned(l0) {
                        lemma_split_aligned(l0, a, current as int, order as int);
                    }
                }
                return Some(a);
            }
            current = current + 1;
        }
        None
    }

    proof fn lemma_split_wf(&self, l0: Seq<Seq<u64>>, a: u64, c: int, order: int)
        requires
            l0.len() == 21,
            0 <= order <= c <= 20,
            l0[c].len() > 0,
            a == l0[c].last(),
            blocks_fit(l0),
            self.lists() == split_lists(l0, a, c, order),
            self.free_memory == free_bytes(l0, 21) - block_size(order as nat),
            self.free_lists@.len() == 21,
        ensures
            self.wf(),
    {
        let l = self.lists();
        lemma_split_bytes(l0, a, c, order, c);
        assert(split_lists(l0, a, c, order) =~= split_from(l0, a, c, order, c));
        assert(blocks_fit(l)) by {
            assert forall|o: int, i: int| 0 <= o < l.len() && 0 <= i < l[o].len() implies #[trigger] l[o][i]
                + block_size(o as nat) <= u64::MAX by {
                if o == c {
                    assert(l[o][i] == l0[c][i]);
                } else if order <= o < c {
                    if i == l0[o].len() {
                        lemma_block_size_mono((o + 1) as nat, c as nat);
                        assert(block_size((o + 1) as nat) == 2 * block_size(o as nat));
                        assert(l0[c][l0[c].len() - 1] + block_size(c as nat) <= u64::MAX);
                    } else {
                        assert(l[o][i] == l0[o][i]);
                    }
                } else {
                    assert(l[o][i] == l0[o][i]);
                }
            }
        }
    }
}

/// `split_lists` for the orders from `k` down, the rest of `c`'s split not yet applied.
pub open spec fn split_from(lists: Seq<Seq<u64>>, a: u64, c: int, order: int, k: int) -> Seq<Seq<u64>> {
    Seq::new(
        lists.len(),
        |j: int|
            if j == c {
                lists[c].drop_last()
            } else if order <= j < c && j >= order {
                lists[j].push((a + block_size(j as nat)) as u64)
            } else {
                lists[j]
            },
    )
}

proof fn lemma_split_bytes(l0: Seq<Seq<u64>>, a: u64, c: int, order: int, k: int)
    requires
        l0.len() == 21,
        0 <= order <= c <= 20,
        k == c,
        l0[c].len() > 0,
    ensures
        free_bytes(split_from(l0, a, c, order, k), 21) == free_bytes(l0, 21) - block_size(order as nat),
{
    lemma_split_bytes_rec(l0, a, c, order, c);
    assert(split_from(l0, a, c, order, k) =~= Seq::new(
        21,
        |j: int|
            if j == c {
                l0[c].drop_last()
            } else if order <= j < c {
                l0[j].push((a + block_size(j as nat)) as u64)
            } else {
                l0[j]
            },
    ));
    lemma_free_bytes_update(l0, 21, c, l0[c].drop_last());
    assert((l0[c].drop_last().len() - l0[c].len()) * block_size(c as nat) == -block_size(c as nat)) by (nonlinear_arith)
        requires
            l0[c].drop_last().len() + 1 == l0[c].len(),
    ;
}

/// Pushing the upper halves for orders `j` in `order..m` onto `l0` with list `c` popped adds
/// `block_size(m) - block_size(order)` bytes.
proof fn lemma_split_bytes_rec(l0: Seq<Seq<u64>>, a: u64, c: int, order: int, m: int)
    requires
        l0.len() == 21,
        0 <= order <= m <= c <= 20,
        l0[c].len() > 0,
    ensures
        free_bytes(
            Seq::new(
                21,
                |j: int|
                    if j == c {
                        l0[c].drop_last()
                    } else if order <= j < m {
                        l0[j].push((a + block_size(j as nat)) as u64)
                    } else {
                        l0[j]
                    },
            ),
            21,
        ) == free_bytes(l0.update(c, l0[c].drop_last()), 21) + block_size(m as nat) - block_size(order as nat),
    decreases m - order,
{
    let cur = Seq::new(
        21,
        |j: int|
            if j == c {
                l0[c].drop_last()
            } else if order <= j < m {
                l0[j].push((a + block_size(j as nat)) as u64)
            } else {
                l0[j]
            },
    );
    if m == order {
        assert(cur =~= l0.update(c, l0[c].drop_last()));
    } else {
        lemma_split_bytes_rec(l0, a, c, order, m - 1);
        let prev = Seq::new(
            21,
            |j: int|
                if j == c {
                    l0[c].drop_last()
                } else if order <= j < m - 1 {
                    l0[j].push((a + block_size(j as nat)) as u64)
                } else {
                    l0[j]
                },
        );
        assert(cur =~= prev.update(m - 1, prev[m - 1].push((a + block_size((m - 1) as nat)) as u64)));
        lemma_free_bytes_update(prev, 21, m - 1, prev[m - 1].push((a + block_size((m - 1) as nat)) as u64));
        assert((prev[m - 1].push((a + block_size((m - 1) as nat)) as u64).len() - prev[m - 1].len()) * block_size(
            (m - 1) as nat,
        ) == block_size((m - 1) as nat)) by (nonlinear_arith)
            requires
                prev[m - 1].push((a + block_size((m - 1) as nat)) as u64).len() == prev[m - 1].len() + 1,
        ;
        assert(block_size(m as nat) == 2 * block_size((m - 1) as nat));
    }
}

} // verus!

verus! {

impl BuddyAllocator {
    /// Gives back the block of `2^order` pages at `addr`: while its buddy is free the two
    /// merge into a block of the next order; the resulting block goes on its list.
    pub fn free_pages(&mut self, addr: u64, order: usize)
        requires
            old(self).wf(),
            order <= MAX_ORDER,
            addr + block_size(order as nat) <= u64::MAX,
            old(self).free_memory + block_size(order as nat) <= u64::MAX,
        ensures
            final(self).wf(),
            final(self).total_memory == old(self).total_memory,
            final(self).lists() == coalesce(old(self).lists(), addr, order as int),
            final(self).free_memory == old(self).free_memory + block_size(order as nat),
            blocks_aligned(old(self).lists()) && aligned_to(addr as int, order as nat) ==> blocks_aligned(
                final(self).lists(),
            ),
    {
        let ghost l0 = self.lists();
        proof {
            lemma_coalesce_bytes(l0, addr, order as int);
            lemma_coalesce_fits(l0, addr, order as int);
            if blocks_aligned(l0) && aligned_to(addr as int, order as nat) {
                lemma_coalesce_aligned(l0, addr, order as int);
            }
        }
        self.free_memory = self.free_memory + block_bytes(order);
        let mut a = addr;
        let mut o = order;
        let mut done = false;
        while o < MAX_ORDER && !done
            invariant
                o <= MAX_ORDER,
                self.free_lists@.len() == MAX_ORDER + 1,
                self.total_memory == old(self).total_memory,
                self.free_memory == old(self).free_memory + block_size(order as nat),
                coalesce(l0, addr, order as int) == (if done {
                    self.lists().update(o as int, self.lists()[o as int].push(a))
                } else {
                    coalesce(self.lists(), a, o as int)
                }),
            decreases MAX_ORDER - o, (if done { 0int } else { 1int }),
        {
            let buddy = self.buddy_of(a, o);
            let ghost before = self.lists();
            if self.remove_from_list(buddy, o) {
                a = if a < buddy { a } else { buddy };
                o = o + 1;
            } else {
                done = true;
            }
        }
        proof {
            if !done {
                assert(o == MAX_ORDER);
            }
        }
        self.push_to_list(a, o);
    }
}

} // verus!

verus! {

/// Carving adds exactly the bytes of the range, and keeps every block within the address
/// space.
pub proof fn lemma_carve(lists: Seq<Seq<u64>>, base: int, end: int)
    requires
        lists.len() == 21,
        blocks_fit(lists),
        base >= 0,
        base % 4096 == 0,
        end % 4096 == 0,
        end <= u64::MAX,
    ensures
        carve(lists, base, end).len() == 21,
        blocks_fit(carve(lists, base, end)),
        free_bytes(carve(lists, base, end), 21) == free_bytes(lists, 21) + (if base < end { end - base } else { 0 }),
    decreases end - base,
{
    if !(base < 0 || base >= end || end - base < 4096) {
        let rem = (end - base) / 4096;
        lemma_fit_order(base / 4096, rem, 20);
        let o = fit_order(base / 4096, rem, 20);
        lemma_block_size_bounds(o);
        assert(block_size(o) <= rem * 4096) by (nonlinear_arith)
            requires
                block_size(o) == (block_size(o) / 4096) * 4096,
                block_size(o) / 4096 <= rem,
        ;
        let l2 = lists.update(o as int, lists[o as int].push(base as u64));
        lemma_free_bytes_update(lists, 21, o as int, lists[o as int].push(base as u64));
        assert((lists[o as int].push(base as u64).len() - lists[o as int].len()) * block_size(o) == block_size(o))
            by (nonlinear_arith)
            requires
                lists[o as int].push(base as u64).len() == lists[o as int].len() + 1,
        ;
        assert(blocks_fit(l2)) by {
            assert forall|p: int, i: int| 0 <= p < l2.len() && 0 <= i < l2[p].len() implies #[trigger] l2[p][i]
                + block_size(p as nat) <= u64::MAX by {
                if p == o && i < lists[p].len() {
                    assert(lists[p][i] + block_size(p as nat) <= u64::MAX);
                }
            }
        }
        lemma_carve(l2, base + block_size(o), end);
    } else if base < end {
        assert(false);
    }
}

/// The order `fit_order` picks for page `idx` with `rem` pages left.
fn fit_order_of(idx: u64, rem: u64) -> (r: usize)
    ensures
        r == fit_order(idx as int, rem as int, 20),
{
    let mut k: usize = 20;
    loop
        invariant
            k <= 20,
            fit_order(idx as int, rem as int, 20) == fit_order(idx as int, rem as int, k as nat),
        decreases k,
    {
        if k == 0 {
            return 0;
        }
        let pages = block_bytes(k) / 4096;
        proof {
            lemma_block_size_bounds(k as nat);
        }
        if idx % pages == 0 && pages <= rem {
            return k;
        }
        k = k - 1;
    }
}

proof fn lemma_span_prefix(rs: Seq<MemoryRegion>, i: int)
    requires
        0 <= i <= rs.len(),
    ensures
        regions_span(rs.subrange(0, i)) <= regions_span(rs),
        regions_span(rs.subrange(0, i)) >= 0,
    decreases rs.len() - i,
{
    if i < rs.len() {
        lemma_span_prefix(rs, i + 1);
        let p = rs.subrange(0, i + 1);
        assert(p.drop_last() =~= rs.subrange(0, i));
        lemma_span_nonneg(rs.subrange(0, i));
    } else {
        assert(rs.subrange(0, i) =~= rs);
        lemma_span_nonneg(rs);
    }
}

proof fn lemma_span_nonneg(rs: Seq<MemoryRegion>)
    ensures
        regions_span(rs) >= 0,
    decreases rs.len(),
{
    if rs.len() > 0 {
        lemma_span_nonneg(rs.drop_last());
    }
}

impl BuddyAllocator {
    /// Cuts `base..end` into blocks (see `carve`) and adds them to the lists and both byte
    /// counts.
    fn carve_range(&mut self, base: u64, end: u64)
        requires
            old(self).wf(),
            base % 4096 == 0,
            end % 4096 == 0,
            base < end ==> old(self).free_memory + (end - base) <= u64::MAX && old(self).total_memory + (end
                - base) <= u64::MAX,
        ensures
            final(self).wf(),
            final(self).lists() == carve(old(self).lists(), base as int, end as int),
            final(self).free_memory == old(self).free_memory + (if base < end { end - base } else { 0 }),
            final(self).total_memory == old(self).total_memory + (if base < end { end - base } else { 0 }),
            blocks_aligned(old(self).lists()) ==> blocks_aligned(final(self).lists()),
    {
        let ghost l0 = self.lists();
        proof {
            if blocks_aligned(l0) {
                lemma_carve_aligned(l0, base as int, end as int);
            }
        }
        let mut b = base;
        while b < end && end - b >= 4096
            invariant
                self.wf(),
                b % 4096 == 0,
                end % 4096 == 0,
                base <= b,
                base < end ==> b <= end,
                carve(l0, base as int, end as int) == carve(self.lists(), b as int, end as int),
                base < end ==> self.free_memory == old(self).free_memory + (b - base) && self.total_memory
                    == old(self).total_memory + (b - base),
                base >= end ==> *self == *old(self),
                base < end ==> old(self).free_memory + (end - base) <= u64::MAX && old(self).total_memory + (end
                    - base) <= u64::MAX,
            decreases end - b,
        {
            let rem = (end - b) / 4096;
            let o = fit_order_of(b / 4096, rem);
            proof {
                lemma_fit_order((b / 4096) as int, rem as int, 20);
                lemma_block_size_bounds(o as nat);
                assert(block_size(o as nat) <= rem * 4096) by (nonlinear_arith)
                    requires
                        block_size(o as nat) == (block_size(o as nat) / 4096) * 4096,
                        block_size(o as nat) / 4096 <= rem,
                ;
                lemma_free_bytes_update(self.lists(), 21, o as int, self.lists()[o as int].push(b));
                assert((self.lists()[o as int].push(b).len() - self.lists()[o as int].len()) * block_size(o as nat)
                    == block_size(o as nat)) by (nonlinear_arith)
                    requires
                        self.lists()[o as int].push(b).len() == self.lists()[o as int].len() + 1,
                ;
            }
            let bs = block_bytes(o);
            let ghost l1 = self.lists();
            self.push_to_list(b, o);
            proof {
                let l2 = self.lists();
                assert(blocks_fit(l2)) by {
                    assert forall|p: int, i: int| 0 <= p < l2.len() && 0 <= i < l2[p].len() implies #[trigger] l2[p][i]
                        + block_size(p as nat) <= u64::MAX by {
                        if p == o && i < l1[p].len() {
                            assert(l1[p][i] + block_size(p as nat) <= u64::MAX);
                        } else if p != o {
                            assert(l2[p][i] == l1[p][i]);
                        }
                    }
                }
            }
            self.total_memory = self.total_memory + bs;
            self.free_memory = self.free_memory + bs;
            b = b + bs;
        }
        proof {
            lemma_carve(self.lists(), b as int, end as int);
        }
    }

    /// Gives the allocator the usable regions of `regions` (see `carve_regions`): each from its
    /// first whole page (but never below 1 MiB) to its last whole page.
    pub fn init_regions(&mut self, regions: &[MemoryRegion])
        requires
            old(self).wf(),
            forall|i: int| 0 <= i < regions@.len() && (#[trigger] regions@[i]).usable == 1 ==> regions@[i].start + 4095
                <= u64::MAX && regions@[i].page_count * 4096 <= u64::MAX,
            old(self).free_memory + regions_span(regions@) <= u64::MAX,
            old(self).total_memory + regions_span(regions@) <= u64::MAX,
        ensures
            final(self).wf(),
            final(self).lists() == carve_regions(old(self).lists(), regions@),
            final(self).total_memory - old(self).total_memory == final(self).free_memory - old(self).free_memory,
            final(self).free_memory - old(self).free_memory == regions_taken(regions@),
            blocks_aligned(old(self).lists()) ==> blocks_aligned(final(self).lists()),
    {
        let mut i: usize = 0;
        proof {
            lemma_span_prefix(regions@, regions@.len() as int);
        }
        assert(regions@.subrange(0, 0) =~= Seq::<MemoryRegion>::empty());
        while i < regions.len()
            invariant
                self.wf(),
                i <= regions@.len(),
                self.lists() == carve_regions(old(self).lists(), regions@.subrange(0, i as int)),
                blocks_aligned(old(self).lists()) ==> blocks_aligned(self.lists()),
                self.free_memory - old(self).free_memory == self.total_memory - old(self).total_memory,
                self.free_memory - old(self).free_memory == regions_taken(regions@.subrange(0, i as int)),
                old(self).free_memory <= self.free_memory,
                self.free_memory - old(self).free_memory <= regions_span(regions@.subrange(0, i as int)),
                forall|j: int| 0 <= j < regions@.len() && (#[trigger] regions@[j]).usable == 1 ==> regions@[j].start
                    + 4095 <= u64::MAX && regions@[j].page_count * 4096 <= u64::MAX,
                old(self).free_memory + regions_span(regions@) <= u64::MAX,
                old(self).total_memory + regions_span(regions@) <= u64::MAX,
            decreases regions@.len() - i,
        {
            let r = regions[i];
            proof {
                lemma_span_prefix(regions@, i + 1);
                let p = regions@.subrange(0, i + 1);
                assert(p.drop_last() =~= regions@.subrange(0, i as int));
                assert(p.last() == r);
            }
            if r.usable == 1 {
                let len = r.page_count * 4096;
                let end_bytes = if r.start > u64::MAX - len { u64::MAX } else { r.start + len };
                let up = r.start + 4095;
                let mut base = up & !4095u64;
                let end = end_bytes & !4095u64;
                assert(base == up / 4096 * 4096) by (bit_vector)
                    requires
                        base == up & !4095u64,
                ;
                assert(end == end_bytes / 4096 * 4096) by (bit_vector)
                    requires
                        end == end_bytes & !4095u64,
                ;
                if base < 0x10_0000 {
                    base = 0x10_0000;
                }
                assert((base as int, end as int) == region_range(r));
                assert(base % 4096 == 0);
                assert(end % 4096 == 0);
                self.carve_range(base, end);
            }
            i = i + 1;
        }
        assert(regions@.subrange(0, regions@.len() as int) =~= regions@);
    }
}

} // verus!

verus! {

/// Whether `x` is a multiple of the size of a block of order `o`.
pub open spec fn aligned_to(x: int, o: nat) -> bool {
    x % (block_size(o) as int) == 0
}

/// Every block starts at a multiple of its size.
pub open spec fn blocks_aligned(lists: Seq<Seq<u64>>) -> bool {
    forall|o: int, i: int| 0 <= o < lists.len() && 0 <= i < lists[o].len() ==> aligned_to(#[trigger] lists[o][i] as int, o as nat)
}

/// The block a block of order `o` merges with is its buddy: XOR with the block size, twice,
/// gives the block back.
pub proof fn lemma_buddy_involution(addr: u64, o: nat)
    requires
        o <= 20,
    ensures
        (addr ^ (block_size(o) as u64)) ^ (block_size(o) as u64) == addr,
{
    let b = block_size(o) as u64;
    assert((addr ^ b) ^ b == addr) by (bit_vector);
}

/// Merging an aligned block with its buddy gives a block aligned to the next size.
proof fn lemma_merge_aligned(x: u64, o: nat)
    requires
        o < 20,
        aligned_to(x as int, o),
    ensures
        ({
            let b = block_size(o) as u64;
            let y = x ^ b;
            let m = if x < y { x } else { y };
            aligned_to(m as int, (o + 1) as nat)
        }),
{
    lemma_block_size_shift(o);
    lemma_block_size_bounds(o);
    let k = o as u64;
    let b = block_size(o) as u64;
    let j = (k + 12) as u64;
    assert(b == 1u64 << j && ((x & b) == 0 <==> ((x >> j) & 1u64) == 0)) by (bit_vector)
        requires
            b == 4096u64 << k,
            j == k + 12,
            k <= 20,
    ;
    vstd::bits::lemma_u64_shr_is_div(x, j);
    vstd::bits::lemma_u64_pow2_no_overflow(j as nat);
    vstd::bits::lemma_u64_shl_is_mul(1u64, j);
    let q = x as int / b as int;
    assert((x >> j) as int == q);
    let h = x >> j;
    assert((h & 1u64) == h % 2) by (bit_vector);
    vstd::arithmetic::div_mod::lemma_fundamental_div_mod(x as int, b as int);
    assert(x as int == q * b as int);
    lemma_xor_block(x, o);
    let bb = block_size((o + 1) as nat) as int;
    assert(bb == 2 * b as int);
    if (x & b) == 0 {
        assert(q % 2 == 0);
        assert(x as int == (q / 2) * bb) by (nonlinear_arith)
            requires
                x as int == q * b as int,
                q % 2 == 0,
                bb == 2 * b as int,
        ;
        vstd::arithmetic::div_mod::lemma_mod_multiples_basic(q / 2, bb);
    } else {
        assert(q % 2 == 1);
        assert(x as int - b as int == ((q - 1) / 2) * bb) by (nonlinear_arith)
            requires
                x as int == q * b as int,
                q % 2 == 1,
                bb == 2 * b as int,
        ;
        vstd::arithmetic::div_mod::lemma_mod_multiples_basic((q - 1) / 2, bb);
    }
}

/// Coalescing an aligned block keeps every block aligned.
pub proof fn lemma_coalesce_aligned(lists: Seq<Seq<u64>>, addr: u64, order: int)
    requires
        0 <= order <= 20,
        lists.len() == 21,
        blocks_aligned(lists),
        aligned_to(addr as int, order as nat),
    ensures
        blocks_aligned(coalesce(lists, addr, order)),
    decreases 20 - order,
{
    if order < 20 {
        let bs = block_size(order as nat);
        let b = addr ^ (bs as u64);
        match remove_latest(lists[order], b) {
            Some(t) => {
                lemma_remove_latest_sub(lists[order], b);
                let l2 = lists.update(order, t);
                assert(blocks_aligned(l2)) by {
                    assert forall|o: int, i: int| 0 <= o < l2.len() && 0 <= i < l2[o].len() implies aligned_to(#[trigger] l2[o][i] as int, o as nat) by {
                        if o == order {
                            let j = choose|j: int| 0 <= j < lists[order].len() && lists[order][j] == t[i];
                            assert(aligned_to(lists[o][j] as int, o as nat));
                        }
                    }
                }
                lemma_merge_aligned(addr, order as nat);
                let m = if addr < b { addr } else { b };
                lemma_coalesce_aligned(l2, m, order + 1);
            },
            None => {
                let l2 = lists.update(order, lists[order].push(addr));
                assert(blocks_aligned(l2)) by {
                    assert forall|o: int, i: int| 0 <= o < l2.len() && 0 <= i < l2[o].len() implies aligned_to(#[trigger] l2[o][i] as int, o as nat) by {
                        if o == order && i < lists[order].len() {
                            assert(aligned_to(lists[o][i] as int, o as nat));
                        }
                    }
                }
            },
        }
    } else {
        let l2 = lists.update(order, lists[order].push(addr));
        assert(blocks_aligned(l2)) by {
            assert forall|o: int, i: int| 0 <= o < l2.len() && 0 <= i < l2[o].len() implies aligned_to(#[trigger] l2[o][i] as int, o as nat) by {
                if o == order && i < lists[order].len() {
                    assert(aligned_to(lists[o][i] as int, o as nat));
                }
            }
        }
    }
}

/// Splitting an aligned block gives aligned halves, and the block handed out is aligned to
/// the order asked for.
pub proof fn lemma_split_aligned(lists: Seq<Seq<u64>>, a: u64, c: int, order: int)
    requires
        lists.len() == 21,
        0 <= order <= c <= 20,
        lists[c].len() > 0,
        a == lists[c].last(),
        blocks_aligned(lists),
        blocks_fit(lists),
    ensures
        blocks_aligned(split_lists(lists, a, c, order)),
        aligned_to(a as int, order as nat),
{
    let l = split_lists(lists, a, c, order);
    assert(aligned_to(a as int, c as nat)) by {
        assert(aligned_to(lists[c][lists[c].len() - 1] as int, c as nat));
    }
    lemma_mod_down(a as int, order as nat, c as nat);
    assert(blocks_aligned(l)) by {
        assert forall|o: int, i: int| 0 <= o < l.len() && 0 <= i < l[o].len() implies aligned_to(#[trigger] l[o][i] as int, o as nat) by {
            if o == c {
                assert(l[o][i] == lists[c][i]);
            } else if order <= o < c {
                if i == lists[o].len() {
                    lemma_mod_down(a as int, o as nat, c as nat);
                    lemma_block_size_bounds(o as nat);
                    lemma_block_size_mono((o + 1) as nat, c as nat);
                    assert(block_size((o + 1) as nat) == 2 * block_size(o as nat));
                    assert(lists[c][lists[c].len() - 1] + block_size(c as nat) <= u64::MAX);
                    vstd::arithmetic::div_mod::lemma_mod_adds(a as int, block_size(o as nat) as int, block_size(o as nat) as int);
                    vstd::arithmetic::div_mod::lemma_mod_self_0(block_size(o as nat) as int);
                } else {
                    assert(l[o][i] == lists[o][i]);
                }
            } else {
                assert(l[o][i] == lists[o][i]);
            }
        }
    }
}

/// A multiple of a block size is a multiple of every smaller block size.
proof fn lemma_mod_down(x: int, k: nat, c: nat)
    requires
        k <= c,
        aligned_to(x, c),
        x >= 0,
    ensures
        aligned_to(x, k),
{
    lemma_block_size_divides(k, c);
    lemma_block_size_bounds_any(k);
    lemma_block_size_bounds_any(c);
    let b = block_size(k) as int;
    let big = block_size(c) as int;
    vstd::arithmetic::div_mod::lemma_fundamental_div_mod(x, big);
    vstd::arithmetic::div_mod::lemma_fundamental_div_mod(big, b);
    assert(x == (x / big) * ((big / b) * b)) by (nonlinear_arith)
        requires
            x == big * (x / big) + x % big,
            x % big == 0,
            big == b * (big / b) + big % b,
            big % b == 0,
    ;
    assert(x == ((x / big) * (big / b)) * b) by (nonlinear_arith)
        requires
            x == (x / big) * ((big / b) * b),
    ;
    vstd::arithmetic::div_mod::lemma_mod_multiples_basic((x / big) * (big / b), b);
}

/// Carving gives blocks aligned to their size.
pub proof fn lemma_carve_aligned(lists: Seq<Seq<u64>>, base: int, end: int)
    requires
        lists.len() == 21,
        blocks_aligned(lists),
        base >= 0,
        base % 4096 == 0,
        end <= u64::MAX,
    ensures
        blocks_aligned(carve(lists, base, end)),
    decreases end - base,
{
    if !(base < 0 || base >= end || end - base < 4096) {
        let rem = (end - base) / 4096;
        lemma_fit_order(base / 4096, rem, 20);
        let o = fit_order(base / 4096, rem, 20);
        lemma_block_size_bounds(o);
        let pages = block_size(o) / 4096;
        assert(aligned_to(base, o)) by {
            vstd::arithmetic::div_mod::lemma_fundamental_div_mod(base, 4096);
            vstd::arithmetic::div_mod::lemma_fundamental_div_mod(base / 4096, pages as int);
            assert(base == ((base / 4096) / pages as int) * (pages * 4096)) by (nonlinear_arith)
                requires
                    base == 4096 * (base / 4096) + base % 4096,
                    base % 4096 == 0,
                    base / 4096 == pages * ((base / 4096) / pages as int) + (base / 4096) % pages as int,
                    (base / 4096) % pages as int == 0,
            ;
            vstd::arithmetic::div_mod::lemma_mod_multiples_basic((base / 4096) / pages as int, block_size(o) as int);
        }
        let l2 = lists.update(o as int, lists[o as int].push(base as u64));
        assert(blocks_aligned(l2)) by {
            assert forall|p: int, i: int| 0 <= p < l2.len() && 0 <= i < l2[p].len() implies aligned_to(#[trigger] l2[p][i] as int, p as nat) by {
                if p == o && i < lists[p].len() {
                    assert(aligned_to(lists[p][i] as int, p as nat));
                }
            }
        }
        assert((base + block_size(o)) % 4096 == 0) by {
            vstd::arithmetic::div_mod::lemma_mod_adds(base, block_size(o) as int, 4096);
        }
        lemma_carve_aligned(l2, base + block_size(o), end);
    }
}

} // verus!

verus! {

/// Starts the page allocator with the usable regions the boot loader reported.
pub fn init(pfa: &mut BuddyAllocator, regions: &[MemoryRegion])
    requires
        old(pfa).wf(),
        forall|i: int| 0 <= i < regions@.len() && (#[trigger] regions@[i]).usable == 1 ==> regions@[i].start + 4095
            <= u64::MAX && regions@[i].page_count * 4096 <= u64::MAX,
        old(pfa).free_memory + regions_span(regions@) <= u64::MAX,
        old(pfa).total_memory + regions_span(regions@) <= u64::MAX,
    ensures
        final(pfa).wf(),
        final(pfa).lists() == carve_regions(old(pfa).lists(), regions@),
        final(pfa).total_memory - old(pfa).total_memory == regions_taken(regions@),
        final(pfa).free_memory - old(pfa).free_memory == regions_taken(regions@),
        blocks_aligned(old(pfa).lists()) ==> blocks_aligned(final(pfa).lists()),
{
    pfa.init_regions(regions);
}

/// What taking a block of order `order` from `before` gives: the block and the state after,
/// as `alloc_pages` describes.
pub open spec fn alloc_outcome(before: &BuddyAllocator, after: &BuddyAllocator, order: int, r: Option<u64>) -> bool {
    &&& after.wf()
    &&& after.total_memory == before.total_memory
    &&& match first_nonempty(before.lists(), order) {
        None => r is None && after.lists() == before.lists(),
        Some(c) => {
            let a = before.lists()[c].last();
            &&& r == Some(a)
            &&& after.lists() == split_lists(before.lists(), a, c, order)
            &&& after.free_memory == before.free_memory - block_size(order as nat)
        },
    }
    &&& blocks_aligned(before.lists()) ==> blocks_aligned(after.lists())
    &&& blocks_aligned(before.lists()) && r is Some ==> aligned_to(r->Some_0 as int, order as nat)
}

/// What giving back the block at `addr` of order `order` to `before` gives, as `free_pages`
/// describes.
pub open spec fn free_outcome(before: &BuddyAllocator, after: &BuddyAllocator, addr: u64, order: int) -> bool {
    &&& after.wf()
    &&& after.total_memory == before.total_memory
    &&& after.lists() == coalesce(before.lists(), addr, order)
    &&& after.free_memory == before.free_memory + block_size(order as nat)
    &&& blocks_aligned(before.lists()) && aligned_to(addr as int, order as nat) ==> blocks_aligned(after.lists())
}

/// Takes one page.
pub fn alloc_page(pfa: &mut BuddyAllocator) -> (r: Option<u64>)
    requires
        old(pfa).wf(),
    ensures
        alloc_outcome(old(pfa), final(pfa), 0, r),
{
    pfa.alloc_pages(0)
}

/// Takes a 2 MiB block (order 9).
pub fn alloc_2mb(pfa: &mut BuddyAllocator) -> (r: Option<u64>)
    requires
        old(pfa).wf(),
    ensures
        alloc_outcome(old(pfa), final(pfa), 9, r),
{
    pfa.alloc_pages(9)
}

/// Takes a 1 GiB block (order 18).
pub fn alloc_1gb(pfa: &mut BuddyAllocator) -> (r: Option<u64>)
    requires
        old(pfa).wf(),
    ensures
        alloc_outcome(old(pfa), final(pfa), 18, r),
{
    pfa.alloc_pages(18)
}

/// Gives back one page.
pub fn free_page(pfa: &mut BuddyAllocator, addr: u64)
    requires
        old(pfa).wf(),
        addr + block_size(0) <= u64::MAX,
        old(pfa).free_memory + block_size(0) <= u64::MAX,
    ensures
        free_outcome(old(pfa), final(pfa), addr, 0),
{
    pfa.free_pages(addr, 0);
}

/// Gives back a 2 MiB block.
pub fn free_2mb(pfa: &mut BuddyAllocator, addr: u64)
    requires
        old(pfa).wf(),
        addr + block_size(9) <= u64::MAX,
        old(pfa).free_memory + block_size(9) <= u64::MAX,
    ensures
        free_outcome(old(pfa), final(pfa), addr, 9),
{
    pfa.free_pages(addr, 9);
}

/// Gives back a 1 GiB block.
pub fn free_1gb(pfa: &mut BuddyAllocator, addr: u64)
    requires
        old(pfa).wf(),
        addr + block_size(18) <= u64::MAX,
        old(pfa).free_memory + block_size(18) <= u64::MAX,
    ensures
        free_outcome(old(pfa), final(pfa), addr, 18),
{
    pfa.free_pages(addr, 18);
}

/// Freeing a block just taken gives back the free byte count from before.
pub proof fn lemma_alloc_free_restores_count(s0: &BuddyAllocator, s1: &BuddyAllocator, s2: &BuddyAllocator, order: int, a: u64)
    requires
        0 <= order <= 20,
        alloc_outcome(s0, s1, order, Some(a)),
        free_outcome(s1, s2, a, order),
    ensures
        s2.free_memory == s0.free_memory,
        s2.total_memory == s0.total_memory,
{
}

/// Freeing a block just taken makes a block of that order available again: the lists hold
/// the freed block, or the larger one it merged into, so a following request of the same
/// order is granted.
pub proof fn lemma_free_then_alloc_again(s0: &BuddyAllocator, s1: &BuddyAllocator, s2: &BuddyAllocator, order: int, a: u64)
    requires
        0 <= order <= 20,
        alloc_outcome(s0, s1, order, Some(a)),
        free_outcome(s1, s2, a, order),
    ensures
        s2.free_memory == s0.free_memory,
        first_nonempty(s2.lists(), order) is Some,
        forall|s3: BuddyAllocator, r: Option<u64>| #[trigger] alloc_outcome(s2, &s3, order, r) ==> r is Some,
{
    lemma_coalesce_nonempty(s1.lists(), a, order);
    let o = choose|o: int| order <= o <= 20 && #[trigger] coalesce(s1.lists(), a, order)[o].len() > 0;
    lemma_first_nonempty(s2.lists(), order);
    assert(s2.lists()[o].len() > 0);
}

/// `coalesce` puts a block on the list of its order or of a higher one.
proof fn lemma_coalesce_nonempty(lists: Seq<Seq<u64>>, addr: u64, order: int)
    requires
        0 <= order <= 20,
        lists.len() == 21,
    ensures
        coalesce(lists, addr, order).len() == 21,
        exists|o: int| order <= o <= 20 && #[trigger] coalesce(lists, addr, order)[o].len() > 0,
    decreases 20 - order,
{
    if order < 20 {
        let b = addr ^ (block_size(order as nat) as u64);
        match remove_latest(lists[order], b) {
            Some(t) => {
                let m = if addr < b { addr } else { b };
                lemma_coalesce_nonempty(lists.update(order, t), m, order + 1);
                let o = choose|o: int| order + 1 <= o <= 20 && #[trigger] coalesce(lists.update(order, t), m, order + 1)[o].len() > 0;
                assert(coalesce(lists, addr, order)[o].len() > 0);
            },
            None => {
                assert(coalesce(lists, addr, order)[order].len() > 0);
            },
        }
    } else {
        assert(coalesce(lists, addr, order)[order].len() > 0);
    }
}

/// Whether the free blocks on `lists` are pairwise disjoint: no two entries share a byte.
pub open spec fn blocks_disjoint(lists: Seq<Seq<u64>>) -> bool {
    forall|o1: int, i1: int, o2: int, i2: int|
        0 <= o1 < lists.len() && 0 <= i1 < lists[o1].len() && 0 <= o2 < lists.len() && 0 <= i2 < lists[o2].len() && (o1
            != o2 || i1 != i2) ==> #[trigger] lists[o1][i1] + block_size(o1 as nat) <= #[trigger] lists[o2][i2] || lists[o2][i2]
            + block_size(o2 as nat) <= lists[o1][i1]
}

/// No block is handed out twice: when the free blocks are disjoint, two allocations in a row
/// give blocks that share no byte.
pub proof fn lemma_no_double_grant(s0: &BuddyAllocator, s1: &BuddyAllocator, s2: &BuddyAllocator, k1: int, k2: int, a1: u64, a2: u64)
    requires
        0 <= k1 <= 20,
        0 <= k2 <= 20,
        s0.wf(),
        blocks_disjoint(s0.lists()),
        alloc_outcome(s0, s1, k1, Some(a1)),
        alloc_outcome(s1, s2, k2, Some(a2)),
    ensures
        a1 + block_size(k1 as nat) <= a2 || a2 + block_size(k2 as nat) <= a1,
{
    let l0 = s0.lists();
    let l1 = s1.lists();
    let c1 = first_nonempty(l0, k1)->Some_0;
    let c2 = first_nonempty(l1, k2)->Some_0;
    lemma_first_nonempty(l0, k1);
    lemma_first_nonempty(l1, k2);
    assert(l0.len() == 21 && l1.len() == 21);
    let i2 = l1[c2].len() - 1;
    assert(a2 == l1[c2][i2]);
    lemma_block_size_mono(k2 as nat, c2 as nat);
    lemma_block_size_mono(k1 as nat, c1 as nat);
    let ia = l0[c1].len() - 1;
    assert(a1 == l0[c1][ia]);
    if k1 <= c2 < c1 && i2 >= l0[c2].len() {
        lemma_block_size_mono(c2 as nat, c1 as nat);
        assert(a1 + block_size(c1 as nat) <= u64::MAX);
        assert(l1[c2] == l0[c2].push((a1 + block_size(c2 as nat)) as u64));
        assert(a2 == a1 + block_size(c2 as nat));
        lemma_block_size_mono(k1 as nat, c2 as nat);
    } else {
        assert(i2 < l0[c2].len());
        assert(a2 == l0[c2][i2]);
        assert(c2 != c1 || i2 != ia);
        assert(l0[c1][ia] + block_size(c1 as nat) <= l0[c2][i2] || l0[c2][i2] + block_size(c2 as nat) <= l0[c1][ia]);
    }
}

/// The free byte count never exceeds what the lists hold: it is exactly their total size,
/// whatever sequence of operations produced the state.
pub proof fn lemma_free_count_matches(s: &BuddyAllocator)
    requires
        s.wf(),
    ensures
        s.free_memory == free_bytes(s.lists(), 21),
        forall|o: int| 0 <= o <= 20 ==> s.free_memory >= (#[trigger] s.lists()[o]).len() * block_size(o as nat),
{
    assert forall|o: int| 0 <= o <= 20 implies s.free_memory >= (#[trigger] s.lists()[o]).len() * block_size(o as nat) by {
        lemma_free_bytes_ge(s.lists(), 21, o);
    }
}

} // verus!
