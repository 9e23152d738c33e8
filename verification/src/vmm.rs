use vstd::prelude::*;
use crate::pfa::{BuddyAllocator, alloc_outcome, HHDM_OFFSET, PAGE_SIZE, first_nonempty, split_lists, block_size, blocks_aligned, aligned_to};

verus! {

/// Entry bit: the entry maps something.
pub const PTE_PRESENT: u64 = 0x1;
/// Entry bit: writes allowed.
pub const PTE_WRITABLE: u64 = 0x2;
/// Entry bit: user mode may access.
pub const PTE_USER: u64 = 0x4;
/// Entry bit: write-through caching.
pub const PTE_WRITE_THROUGH: u64 = 0x8;
/// Entry bit: caching disabled.
pub const PTE_NO_CACHE: u64 = 0x10;
/// Entry bit: the entry maps a large page rather than a table.
pub const PTE_HUGE_PAGE: u64 = 0x80;
/// Entry bit: no instruction fetches.
pub const PTE_NO_EXECUTE: u64 = 0x8000_0000_0000_0000;
/// The physical address bits of an entry.
pub const PTE_ADDR_MASK: u64 = 0x000F_FFFF_FFFF_F000;

/// A page table entry: a physical address and flag bits.
#[derive(Clone, Copy)]
pub struct PageTableEntry(pub u64);

impl PageTableEntry {
    /// Whether the present bit is set.
    pub fn is_present(&self) -> (r: bool)
        ensures
            r == (self.0 & PTE_PRESENT != 0),
    {
        (self.0 & PTE_PRESENT) != 0
    }

    /// Whether the large-page bit is set.
    pub fn is_huge(&self) -> (r: bool)
        ensures
            r == (self.0 & PTE_HUGE_PAGE != 0),
    {
        (self.0 & PTE_HUGE_PAGE) != 0
    }

    /// Points the entry at `phys_addr` (its address bits) with the flag bits `flags`.
    pub fn set_entry(&mut self, phys_addr: u64, flags: u64)
        ensures
            final(self).0 == (phys_addr & PTE_ADDR_MASK) | flags,
    {
        self.0 = (phys_addr & PTE_ADDR_MASK) | flags;
    }

    /// The physical address the entry holds.
    pub fn phys_addr(&self) -> (r: u64)
        ensures
            r == self.0 & PTE_ADDR_MASK,
    {
        self.0 & PTE_ADDR_MASK
    }

    /// Empties the entry.
    pub fn clear(&mut self)
        ensures
            final(self).0 == 0,
    {
        self.0 = 0;
    }
}

/// A page table: 512 entries.
pub struct PageTable {
    pub entries: [PageTableEntry; 512],
}

impl PageTable {
    /// A table whose entries are all empty.
    pub fn empty() -> (r: PageTable)
        ensures
            forall|i: int| 0 <= i < 512 ==> (#[trigger] r.entries@[i]).0 == 0,
    {
        PageTable { entries: [PageTableEntry(0); 512] }
    }
}

/// The indices into the four levels of tables (PML4, PDPT, PD, PT) for `virt`: nine bits each
/// from bit 39, 30, 21 and 12.
pub open spec fn indices_of(virt: u64) -> (usize, usize, usize, usize) {
    (
        ((virt >> 39u64) & 0x1FF) as usize,
        ((virt >> 30u64) & 0x1FF) as usize,
        ((virt >> 21u64) & 0x1FF) as usize,
        ((virt >> 12u64) & 0x1FF) as usize,
    )
}

/// The four table indices of `virt`.
pub fn table_indices(virt: u64) -> (r: (usize, usize, usize, usize))
    ensures
        r == indices_of(virt),
        r.0 < 512 && r.1 < 512 && r.2 < 512 && r.3 < 512,
{
    let a = (virt >> 39u64) & 0x1FF;
    let b = (virt >> 30u64) & 0x1FF;
    let c = (virt >> 21u64) & 0x1FF;
    let d = (virt >> 12u64) & 0x1FF;
    proof { lemma_entry_bits(0, virt); }
    (a as usize, b as usize, c as usize, d as usize)
}

/// The flag bits of a mapping: present, plus writable, user, and no-execute unless
/// `execute`; with `disable_cache`, both cache-disable and write-through.
pub open spec fn flags_spec(writable: bool, user: bool, disable_cache: bool, execute: bool) -> u64 {
    let f1 = PTE_PRESENT | (if writable { PTE_WRITABLE } else { 0 });
    let f2 = f1 | (if user { PTE_USER } else { 0 });
    let f3 = f2 | (if !execute { PTE_NO_EXECUTE } else { 0 });
    f3 | (if disable_cache { PTE_NO_CACHE | PTE_WRITE_THROUGH } else { 0 })
}

/// The flag bits of a mapping.
pub fn map_flags(writable: bool, user: bool, disable_cache: bool, execute: bool) -> (r: u64)
    ensures
        r == flags_spec(writable, user, disable_cache, execute),
{
    let f1 = PTE_PRESENT | (if writable { PTE_WRITABLE } else { 0 });
    let f2 = f1 | (if user { PTE_USER } else { 0 });
    let f3 = f2 | (if !execute { PTE_NO_EXECUTE } else { 0 });
    f3 | (if disable_cache { PTE_NO_CACHE | PTE_WRITE_THROUGH } else { 0 })
}

/// What one step of a table walk finds.
pub enum Walk {
    /// Nothing is mapped there.
    Missing,
    /// The walk ends at this physical address.
    Frame(u64),
    /// The walk goes on in the table at this physical address.
    Table(u64),
}

/// Bounds of the fields of an entry and of a virtual address: the address bits of `raw` are
/// at most the mask and keep under it, each table index is below 512, and each in-page
/// offset is at most its page's last byte.
proof fn lemma_entry_bits(raw: u64, virt: u64)
    by (bit_vector)
    ensures
        raw & 0x000F_FFFF_FFFF_F000u64 <= 0x000F_FFFF_FFFF_F000u64,
        (raw & 0x000F_FFFF_FFFF_F000u64) & 0x000F_FFFF_FFFF_F000u64 == raw & 0x000F_FFFF_FFFF_F000u64,
        (virt >> 39u64) & 0x1FF < 512,
        (virt >> 30u64) & 0x1FF < 512,
        (virt >> 21u64) & 0x1FF < 512,
        (virt >> 12u64) & 0x1FF < 512,
        virt & 0x3FFF_FFFF <= 0x3FFF_FFFF,
        virt & 0x1F_FFFF <= 0x1F_FFFF,
        virt & 0xFFF <= 0xFFF,
{
}

/// One step of translating `virt` through the entry `e` found at `level` (4 for PML4, 3 for
/// PDPT, 2 for PD, 1 for PT): an entry that is not present maps nothing; a large-page entry
/// at level 3 or 2 (or any entry at level 1) ends the walk at its address plus the offset of
/// `virt` in the page (1 GiB, 2 MiB, 4 KiB); other entries lead to the next table.
pub open spec fn walk_spec(level: u8, e: u64, virt: u64) -> Walk {
    let phys = e & PTE_ADDR_MASK;
    if e & PTE_PRESENT == 0 {
        Walk::Missing
    } else if level == 1 {
        Walk::Frame((phys + (virt & 0xFFF)) as u64)
    } else if level == 3 && e & PTE_HUGE_PAGE != 0 {
        Walk::Frame((phys + (virt & 0x3FFF_FFFF)) as u64)
    } else if level == 2 && e & PTE_HUGE_PAGE != 0 {
        Walk::Frame((phys + (virt & 0x1F_FFFF)) as u64)
    } else {
        Walk::Table(phys)
    }
}

/// One step of translating `virt` (see `walk_spec`).
pub fn translate_step(level: u8, e: PageTableEntry, virt: u64) -> (r: Walk)
    ensures
        r == walk_spec(level, e.0, virt),
{
    if !e.is_present() {
        return Walk::Missing;
    }
    let phys = e.phys_addr();
    let raw = e.0;
    proof { lemma_entry_bits(raw, virt); }
    if level == 1 {
        Walk::Frame(phys + (virt & 0xFFF))
    } else if level == 3 && e.is_huge() {
        Walk::Frame(phys + (virt & 0x3FFF_FFFF))
    } else if level == 2 && e.is_huge() {
        Walk::Frame(phys + (virt & 0x1F_FFFF))
    } else {
        Walk::Table(phys)
    }
}

/// What mapping through an intermediate entry needs: the entry as it must become, and the
/// table it leads to, or a new table to be taken.
pub enum NextTable {
    /// The entry is present: it becomes `entry` (user access added when asked for and
    /// missing) and leads to the table at `table`.
    Existing { entry: PageTableEntry, table: u64 },
    /// The entry is empty: a zeroed table must be taken and the entry pointed at it.
    Allocate,
}

/// The entry an intermediate entry becomes for a mapping: when `user` is asked for and the
/// entry lacks user access, its address is kept with its low flag bits plus user access.
pub open spec fn upgraded(e: u64, user: bool) -> u64 {
    if user && (e & PTE_USER) == 0 {
        (e & PTE_ADDR_MASK) | ((e & 0xFFF) | PTE_USER)
    } else {
        e
    }
}

/// What mapping through the intermediate entry `entry` needs (see `NextTable`).
pub fn next_table(entry: PageTableEntry, user: bool) -> (r: NextTable)
    ensures
        entry.0 & PTE_PRESENT == 0 ==> r is Allocate,
        entry.0 & PTE_PRESENT != 0 ==> r == (NextTable::Existing {
            entry: PageTableEntry(upgraded(entry.0, user)),
            table: upgraded(entry.0, user) & PTE_ADDR_MASK,
        }),
{
    if entry.is_present() {
        let mut e = entry;
        if user && (e.0 & PTE_USER) == 0 {
            let phys = e.phys_addr();
            let flags = e.0 & 0xFFF;
            e.set_entry(phys, flags | PTE_USER);
            let raw = entry.0;
            proof { lemma_entry_bits(raw, 0); }
        }
        let table = e.phys_addr();
        return NextTable::Existing { entry: e, table };
    }
    NextTable::Allocate
}

/// The entry that points at a newly taken table: present, writable, user.
pub fn fresh_table_entry(phys: u64) -> (r: PageTableEntry)
    ensures
        r.0 == (phys & PTE_ADDR_MASK) | (PTE_PRESENT | PTE_WRITABLE | PTE_USER),
{
    let mut e = PageTableEntry(0);
    e.set_entry(phys, PTE_PRESENT | PTE_WRITABLE | PTE_USER);
    e
}

/// Where a mapping of `size` bytes ends: a 1 GiB page at the PDPT, a 2 MiB page at the PD,
/// anything else a 4 KiB page at the PT.
pub open spec fn leaf_level(size: u64) -> u8 {
    if size == 0x4000_0000 {
        3
    } else if size == 0x20_0000 {
        2
    } else {
        1
    }
}

/// The level and entry of the leaf of a mapping of `phys` with `flags`: large pages get the
/// large-page bit.
pub open spec fn leaf_of(phys: u64, size: u64, flags: u64) -> Option<(u8, PageTableEntry)> {
    Some(
        (
            leaf_level(size),
            PageTableEntry(
                (phys & PTE_ADDR_MASK) | (if leaf_level(size) > 1 { flags | PTE_HUGE_PAGE } else { flags }),
            ),
        ),
    )
}

/// The leaf entry of a mapping of `phys` with `flags`, at the level `leaf_level(size)`
/// gives; large pages must be aligned to their size (`None` otherwise).
pub fn leaf_entry(phys: u64, virt: u64, size: u64, flags: u64) -> (r: Option<(u8, PageTableEntry)>)
    ensures
        leaf_level(size) > 1 && (virt % size != 0 || phys % size != 0) ==> r is None,
        !(leaf_level(size) > 1 && (virt % size != 0 || phys % size != 0)) ==> r == leaf_of(phys, size, flags),
{
    let level: u8 = if size == 0x4000_0000 {
        3
    } else if size == 0x20_0000 {
        2
    } else {
        1
    };
    let mut e = PageTableEntry(0);
    if level > 1 {
        if virt % size != 0 || phys % size != 0 {
            return None;
        }
        e.set_entry(phys, flags | PTE_HUGE_PAGE);
    } else {
        e.set_entry(phys, flags);
    }
    Some((level, e))
}

/// The manager of the active page tables: the virtual address of the top table.
pub struct PageTableManager {
    pub pml4_virt: u64,
}

impl PageTableManager {
    /// The manager for the tables whose top table is at physical address `pml4_phys` (as CR3
    /// holds it), seen through the higher-half map.
    pub fn active(pml4_phys: u64) -> (r: PageTableManager)
        requires
            pml4_phys + HHDM_OFFSET <= u64::MAX,
        ensures
            r.pml4_virt == pml4_phys + HHDM_OFFSET,
    {
        PageTableManager { pml4_virt: pml4_phys + HHDM_OFFSET }
    }
}

/// The frames `n` successive one-page allocations take from free lists `lists`, with the
/// lists they leave; once no list has a block, nothing more is taken.
pub open spec fn taken(lists: Seq<Seq<u64>>, n: nat) -> (Seq<u64>, Seq<Seq<u64>>)
    decreases n,
{
    if n == 0 {
        (Seq::empty(), lists)
    } else {
        let (fs, ls) = taken(lists, (n - 1) as nat);
        match first_nonempty(ls, 0) {
            Some(c) => (fs.push(ls[c].last()), split_lists(ls, ls[c].last(), c, 0)),
            None => (fs, ls),
        }
    }
}

/// Takes one frame for each of `pages` pages from `virt_start` on, in order, pairing each
/// virtual page with the frame taken for it and the mapping flags `flags`; stops at the
/// first page no frame is left for, with the error `msg`.
fn map_pages(pfa: &mut BuddyAllocator, virt_start: u64, pages: u64, flags: u64, msg: &'static str) -> (r: (Vec<(u64, u64, u64)>, Result<(), &'static str>))
    requires
        old(pfa).wf(),
        virt_start + pages * PAGE_SIZE <= u64::MAX,
    ensures
        final(pfa).wf(),
        final(pfa).total_memory == old(pfa).total_memory,
        r.0@.len() <= pages,
        r.1 is Ok <==> r.0@.len() == pages,
        r.1 is Err ==> r.1 == Err::<(), &'static str>(msg) && first_nonempty(final(pfa).lists(), 0) is None,
        forall|i: int| 0 <= i < r.0@.len() ==> (#[trigger] r.0@[i]).0 == virt_start + i * PAGE_SIZE && r.0@[i].2 == flags,
        r.0@.map_values(|t: (u64, u64, u64)| t.1) == taken(old(pfa).lists(), r.0@.len() as nat).0,
        final(pfa).lists() == taken(old(pfa).lists(), r.0@.len() as nat).1,
        final(pfa).free_memory == old(pfa).free_memory - 4096 * r.0@.len(),
        blocks_aligned(old(pfa).lists()) ==> forall|i: int| 0 <= i < r.0@.len() ==> aligned_to((#[trigger] r.0@[i]).1 as int, 0),
{
    let mut out: Vec<(u64, u64, u64)> = Vec::new();
    let mut i: u64 = 0;
    assert(out@.map_values(|t: (u64, u64, u64)| t.1) =~= Seq::<u64>::empty());
    while i < pages
        invariant
            pfa.wf(),
            pfa.total_memory == old(pfa).total_memory,
            i <= pages,
            virt_start + pages * PAGE_SIZE <= u64::MAX,
            out@.len() == i,
            forall|j: int| 0 <= j < out@.len() ==> (#[trigger] out@[j]).0 == virt_start + j * PAGE_SIZE && out@[j].2 == flags,
            out@.map_values(|t: (u64, u64, u64)| t.1) == taken(old(pfa).lists(), i as nat).0,
            pfa.lists() == taken(old(pfa).lists(), i as nat).1,
            pfa.free_memory == old(pfa).free_memory - 4096 * i,
            blocks_aligned(old(pfa).lists()) ==> blocks_aligned(pfa.lists()),
            blocks_aligned(old(pfa).lists()) ==> forall|j: int| 0 <= j < out@.len() ==> aligned_to((#[trigger] out@[j]).1 as int, 0),
        decreases pages - i,
    {
        assert(i * PAGE_SIZE <= pages * PAGE_SIZE) by (nonlinear_arith)
            requires
                i <= pages,
        ;
        let virt = virt_start + i * PAGE_SIZE;
        let ghost before = out@;
        match pfa.alloc_pages(0) {
            Some(phys) => {
                out.push((virt, phys, flags));
                proof {
                    assert(block_size(0) == 4096);
                    assert(out@.map_values(|t: (u64, u64, u64)| t.1) =~= before.map_values(|t: (u64, u64, u64)| t.1).push(phys));
                }
            },
            None => {
                return (out, Err(msg));
            },
        }
        i = i + 1;
    }
    (out, Ok(()))
}

/// Takes one frame for each of `pages` pages from `virt_start` on, each to be mapped present
/// (and writable when `writable`), as `map_pages` says.
pub fn map_range(pfa: &mut BuddyAllocator, virt_start: u64, pages: u64, writable: bool) -> (r: (Vec<(u64, u64, u64)>, Result<(), &'static str>))
    requires
        old(pfa).wf(),
        virt_start + pages * PAGE_SIZE <= u64::MAX,
    ensures
        final(pfa).wf(),
        final(pfa).total_memory == old(pfa).total_memory,
        r.0@.len() <= pages,
        r.1 is Ok <==> r.0@.len() == pages,
        r.1 is Err ==> r.1 == Err::<(), &'static str>("Map Range: Fiziksel bellek yetersiz!") && first_nonempty(final(pfa).lists(), 0) is None,
        forall|i: int| 0 <= i < r.0@.len() ==> (#[trigger] r.0@[i]).0 == virt_start + i * PAGE_SIZE
            && r.0@[i].2 == flags_spec(writable, false, false, false),
        r.0@.map_values(|t: (u64, u64, u64)| t.1) == taken(old(pfa).lists(), r.0@.len() as nat).0,
        final(pfa).lists() == taken(old(pfa).lists(), r.0@.len() as nat).1,
        final(pfa).free_memory == old(pfa).free_memory - 4096 * r.0@.len(),
        blocks_aligned(old(pfa).lists()) ==> forall|i: int| 0 <= i < r.0@.len() ==> aligned_to((#[trigger] r.0@[i]).1 as int, 0),
{
    let flags = map_flags(writable, false, false, false);
    map_pages(pfa, virt_start, pages, flags, "Map Range: Fiziksel bellek yetersiz!")
}

/// As `map_range`, with the pages mapped for user mode when `user` and executable when
/// `execute`.
pub fn map_range_ex(pfa: &mut BuddyAllocator, virt_start: u64, pages: u64, writable: bool, user: bool, execute: bool) -> (r: (Vec<(u64, u64, u64)>, Result<(), &'static str>))
    requires
        old(pfa).wf(),
        virt_start + pages * PAGE_SIZE <= u64::MAX,
    ensures
        final(pfa).wf(),
        final(pfa).total_memory == old(pfa).total_memory,
        r.0@.len() <= pages,
        r.1 is Ok <==> r.0@.len() == pages,
        r.1 is Err ==> r.1 == Err::<(), &'static str>("Map Range Ex: Fiziksel bellek yetersiz!") && first_nonempty(final(pfa).lists(), 0) is None,
        forall|i: int| 0 <= i < r.0@.len() ==> (#[trigger] r.0@[i]).0 == virt_start + i * PAGE_SIZE
            && r.0@[i].2 == flags_spec(writable, user, false, execute),
        r.0@.map_values(|t: (u64, u64, u64)| t.1) == taken(old(pfa).lists(), r.0@.len() as nat).0,
        final(pfa).lists() == taken(old(pfa).lists(), r.0@.len() as nat).1,
        final(pfa).free_memory == old(pfa).free_memory - 4096 * r.0@.len(),
        blocks_aligned(old(pfa).lists()) ==> forall|i: int| 0 <= i < r.0@.len() ==> aligned_to((#[trigger] r.0@[i]).1 as int, 0),
{
    let flags = map_flags(writable, user, false, execute);
    map_pages(pfa, virt_start, pages, flags, "Map Range Ex: Fiziksel bellek yetersiz!")
}

/// Translation undoes mapping: the leaf entry a mapping of `size` bytes (4 KiB, 2 MiB or
/// 1 GiB) of the aligned physical address `p` at the aligned virtual address `v` writes
/// translates every address `v + k` in the page to `p + k`.
pub proof fn lemma_translate_inverts_map(p: u64, v: u64, k: u64, size: u64, flags: u64)
    requires
        size == 0x1000 || size == 0x20_0000 || size == 0x4000_0000,
        p % size == 0,
        v % size == 0,
        p <= PTE_ADDR_MASK,
        k < size,
        v + k <= u64::MAX,
        flags & PTE_ADDR_MASK == 0,
        flags & PTE_PRESENT != 0,
    ensures
        walk_spec(leaf_level(size), leaf_of(p, size, flags)->Some_0.1.0, (v + k) as u64) == Walk::Frame((p + k) as u64),
{
    let va = (v + k) as u64;
    let fl = if size == 0x1000 { flags } else { flags | 0x80u64 };
    let e = leaf_of(p, size, flags)->Some_0.1.0;
    assert(e == (p & 0x000F_FFFF_FFFF_F000u64) | fl);
    assert((e & 0x1u64) != 0 && (size != 0x1000 ==> (e & 0x80u64) != 0) && (e & 0x000F_FFFF_FFFF_F000u64) == p
        && (va & (size - 1u64) as u64) == k) by (bit_vector)
        requires
            size == 0x1000u64 || size == 0x20_0000u64 || size == 0x4000_0000u64,
            size == 0x1000u64 ==> fl == flags,
            size != 0x1000u64 ==> fl == flags | 0x80u64,
            e == (p & 0x000F_FFFF_FFFF_F000u64) | fl,
            p % size == 0,
            p <= 0x000F_FFFF_FFFF_F000u64,
            flags & 0x000F_FFFF_FFFF_F000u64 == 0,
            flags & 0x1u64 != 0,
            v % size == 0,
            k < size,
            va == v + k,
    ;
    assert(size == 0x1000 ==> (size - 1u64) as u64 == 0xFFFu64);
    assert(size == 0x20_0000 ==> (size - 1u64) as u64 == 0x1F_FFFFu64);
    assert(size == 0x4000_0000 ==> (size - 1u64) as u64 == 0x3FFF_FFFFu64);
}

/// An entry whose present bit is clear maps nothing at any level, and the entry that points
/// at a newly taken table leads every translation through it on to that table.
pub proof fn lemma_walk_absent_and_tables(level: u8, e: u64, t: u64, va: u64)
    requires
        2 <= level <= 4,
        t % 0x1000 == 0,
        t <= PTE_ADDR_MASK,
    ensures
        e & PTE_PRESENT == 0 ==> walk_spec(level, e, va) == Walk::Missing,
        walk_spec(level, (t & PTE_ADDR_MASK) | (PTE_PRESENT | PTE_WRITABLE | PTE_USER), va) == Walk::Table(t),
{
    let f = (t & 0x000F_FFFF_FFFF_F000u64) | (0x1u64 | 0x2u64 | 0x4u64);
    assert((f & 0x1u64) != 0 && (f & 0x80u64) == 0 && (f & 0x000F_FFFF_FFFF_F000u64) == t) by (bit_vector)
        requires
            f == (t & 0x000F_FFFF_FFFF_F000u64) | (0x1u64 | 0x2u64 | 0x4u64),
            t % 0x1000 == 0,
            t <= 0x000F_FFFF_FFFF_F000u64,
    ;
}

} // verus!
