use vstd::prelude::*;
use crate::bytes::{get_le16, get_le32, get_le64, le16, le32, le64, slice_of, lemma_le32_bounds};

verus! {

/// What the boot loader takes from a 64-bit ELF header: the entry point and where the
/// program header table lies.
#[derive(Clone, Copy)]
pub struct ElfHeader {
    pub entry: u64,
    pub phoff: u64,
    pub phentsize: u16,
    pub phnum: u16,
}

/// A loadable segment and the pages that hold it: the segment is read from `offset`
/// (`filesz` bytes) to physical address `paddr`, the rest of its `memsz` bytes are zeroed,
/// and `pages` pages from the page `page_base` are reserved for it.
#[derive(Clone, Copy)]
pub struct LoadSegment {
    pub offset: u64,
    pub paddr: u64,
    pub filesz: u64,
    pub memsz: u64,
    pub page_base: u64,
    pub pages: u64,
}

/// A header the loader accepts: the ELF magic, 64-bit class, machine x86-64.
pub open spec fn elf_ok(h: Seq<u8>) -> bool {
    &&& h[0] == 0x7f
    &&& h[1] == 0x45
    &&& h[2] == 0x4c
    &&& h[3] == 0x46
    &&& h[4] == 2
    &&& h[18] == 0x3e
}

/// The fields of a header (little-endian): entry at 24, table offset at 32, entry size at
/// 54, entry count at 56.
pub open spec fn header_of(h: Seq<u8>) -> ElfHeader {
    ElfHeader {
        entry: le64(h, 24) as u64,
        phoff: le64(h, 32) as u64,
        phentsize: le16(h, 54) as u16,
        phnum: le16(h, 56) as u16,
    }
}

/// Reads the 64-byte ELF header `h`; `None` when it is not a 64-bit x86-64 ELF file.
pub fn parse_header(h: &[u8; 64]) -> (r: Option<ElfHeader>)
    ensures
        r == (if elf_ok(h@) {
            Some(header_of(h@))
        } else {
            None
        }),
{
    let b = h.as_slice();
    if !(b[0] == 0x7f && b[1] == 0x45 && b[2] == 0x4c && b[3] == 0x46 && b[4] == 2 && b[18] == 0x3e) {
        return None;
    }
    Some(
        ElfHeader {
            entry: get_le64(b, 24),
            phoff: get_le64(b, 32),
            phentsize: get_le16(b, 54),
            phnum: get_le16(b, 56),
        },
    )
}

/// The segment a program header describes, when it is loadable (type 1): offset at 8,
/// physical address at 24, file size at 32, memory size at 40; its pages start at the page
/// boundary below the address and cover the address's offset in its page plus the memory
/// size, rounded up to whole pages.
pub open spec fn segment_of(ph: Seq<u8>) -> Option<LoadSegment> {
    if le32(ph, 0) != 1 {
        None
    } else {
        let paddr = le64(ph, 24);
        let memsz = le64(ph, 40);
        Some(
            LoadSegment {
                offset: le64(ph, 8) as u64,
                paddr: paddr as u64,
                filesz: le64(ph, 32) as u64,
                memsz: memsz as u64,
                page_base: (paddr - paddr % 0x1000) as u64,
                pages: ((paddr % 0x1000 + memsz + 0xfff) / 0x1000) as u64,
            },
        )
    }
}

/// Whether the page count of a program header can be computed in 64 bits.
pub open spec fn header_fits(ph: Seq<u8>) -> bool {
    le32(ph, 0) == 1 ==> le64(ph, 40) + 0x1fff <= u64::MAX
}

/// Reads the program header `ph`; `None` when it is not a loadable segment.
pub fn load_segment(ph: &[u8]) -> (r: Option<LoadSegment>)
    requires
        ph@.len() >= 48,
        header_fits(ph@),
    ensures
        r == segment_of(ph@),
{
    if get_le32(ph, 0) != 1 {
        return None;
    }
    let offset = get_le64(ph, 8);
    let paddr = get_le64(ph, 24);
    let filesz = get_le64(ph, 32);
    let memsz = get_le64(ph, 40);
    proof {
        crate::bytes::lemma_le32_bounds(ph@, 24);
        crate::bytes::lemma_le32_bounds(ph@, 28);
    }
    let page_base = paddr - paddr % 0x1000;
    let page_offset = paddr - page_base;
    let pages = (page_offset + memsz + 0xfff) / 0x1000;
    Some(LoadSegment { offset, paddr, filesz, memsz, page_base, pages })
}

/// Program header `i` of a table of entries `es` bytes long.
pub open spec fn entry_at(table: Seq<u8>, es: int, i: int) -> Seq<u8> {
    table.subrange(i * es, i * es + es)
}

/// The loadable segments among the first `n` entries of a program header table, in order.
pub open spec fn load_plan_spec(table: Seq<u8>, es: int, n: int) -> Seq<LoadSegment>
    decreases n,
{
    if n <= 0 {
        Seq::empty()
    } else {
        let prev = load_plan_spec(table, es, n - 1);
        match segment_of(entry_at(table, es, n - 1)) {
            Some(s) => prev.push(s),
            None => prev,
        }
    }
}

/// The loadable segments of the program header table `table`, which holds `phnum` entries
/// of `phentsize` bytes, in table order.
pub fn load_plan(table: &[u8], phentsize: usize, phnum: usize) -> (r: Vec<LoadSegment>)
    requires
        phentsize >= 48,
        table@.len() == phentsize * phnum,
        forall|i: int| 0 <= i < phnum ==> #[trigger] header_fits(entry_at(table@, phentsize as int, i)),
    ensures
        r@ == load_plan_spec(table@, phentsize as int, phnum as int),
{
    let mut out: Vec<LoadSegment> = Vec::new();
    let len = table.len();
    let mut i: usize = 0;
    while i < phnum
        invariant
            len == table@.len(),
            phentsize >= 48,
            table@.len() == phentsize * phnum,
            forall|k: int| 0 <= k < phnum ==> #[trigger] header_fits(entry_at(table@, phentsize as int, k)),
            i <= phnum,
            out@ == load_plan_spec(table@, phentsize as int, i as int),
        decreases phnum - i,
    {
        assert(i * phentsize + phentsize <= phnum * phentsize) by (nonlinear_arith)
            requires
                i < phnum,
        ;
        assert(phnum * phentsize == phentsize * phnum) by (nonlinear_arith);
        let off = i * phentsize;
        let rec = slice_of(table, off, off + phentsize);
        assert(rec@ == entry_at(table@, phentsize as int, i as int));
        assert(header_fits(entry_at(table@, phentsize as int, i as int)));
        match load_segment(rec.as_slice()) {
            Some(s) => {
                out.push(s);
            },
            None => {},
        }
        i = i + 1;
    }
    out
}

/// Number of program headers of type 1 (loadable) among the first `n` entries of a table.
pub open spec fn loadable_count(table: Seq<u8>, es: int, n: int) -> int
    decreases n,
{
    if n <= 0 {
        0
    } else {
        loadable_count(table, es, n - 1) + if le32(entry_at(table, es, n - 1), 0) == 1 { 1int } else { 0int }
    }
}

/// There are never fewer than no loadable entries.
proof fn lemma_count_nonneg(table: Seq<u8>, es: int, n: int)
    ensures
        loadable_count(table, es, n) >= 0,
    decreases n,
{
    if n > 0 {
        lemma_count_nonneg(table, es, n - 1);
    }
}

/// A loadable entry before entry `m` is counted among the loadable entries before `m`.
proof fn lemma_count_before(table: Seq<u8>, es: int, k: int, m: int)
    requires
        0 <= k < m,
        le32(entry_at(table, es, k), 0) == 1,
    ensures
        loadable_count(table, es, k) + 1 <= loadable_count(table, es, m),
    decreases m - k,
{
    if k < m - 1 {
        lemma_count_before(table, es, k, m - 1);
    }
}

/// Every loadable program header is loaded, in table order: the plan for the first `n`
/// entries has one segment per entry of type 1, and the segment for the `k`-th entry is at
/// the position of the loadable entries before it, carrying that entry's file offset,
/// physical address, file and memory sizes, and the whole pages around them.
pub proof fn lemma_plan_loads_every_segment(table: Seq<u8>, es: int, n: int)
    requires
        n >= 0,
        es >= 48,
        table.len() >= es * n,
    ensures
        load_plan_spec(table, es, n).len() == loadable_count(table, es, n),
        forall|k: int|
            0 <= k < n && le32(#[trigger] entry_at(table, es, k), 0) == 1 ==> {
                let s = load_plan_spec(table, es, n)[loadable_count(table, es, k)];
                let ph = entry_at(table, es, k);
                &&& s.offset == le64(ph, 8)
                &&& s.paddr == le64(ph, 24)
                &&& s.filesz == le64(ph, 32)
                &&& s.memsz == le64(ph, 40)
                &&& s.page_base == le64(ph, 24) - le64(ph, 24) % 0x1000
                &&& s.pages == (le64(ph, 24) % 0x1000 + le64(ph, 40) + 0xfff) / 0x1000
            },
    decreases n,
{
    if n > 0 {
        assert(table.len() >= es * (n - 1)) by (nonlinear_arith)
            requires
                table.len() >= es * n,
                es >= 48,
                n >= 1,
        ;
        lemma_plan_loads_every_segment(table, es, n - 1);
        let prev = load_plan_spec(table, es, n - 1);
        assert forall|k: int|
            0 <= k < n && le32(#[trigger] entry_at(table, es, k), 0) == 1 implies {
                let s = load_plan_spec(table, es, n)[loadable_count(table, es, k)];
                let ph = entry_at(table, es, k);
                &&& s.offset == le64(ph, 8)
                &&& s.paddr == le64(ph, 24)
                &&& s.filesz == le64(ph, 32)
                &&& s.memsz == le64(ph, 40)
                &&& s.page_base == le64(ph, 24) - le64(ph, 24) % 0x1000
                &&& s.pages == (le64(ph, 24) % 0x1000 + le64(ph, 40) + 0xfff) / 0x1000
            } by {
            let ph = entry_at(table, es, k);
            assert(0 <= k * es && k * es + es <= table.len()) by (nonlinear_arith)
                requires
                    0 <= k < n,
                    es >= 48,
                    table.len() >= es * n,
            ;
            assert(ph.len() == es);
            lemma_le32_bounds(ph, 8);
            lemma_le32_bounds(ph, 12);
            lemma_le32_bounds(ph, 24);
            lemma_le32_bounds(ph, 28);
            lemma_le32_bounds(ph, 32);
            lemma_le32_bounds(ph, 36);
            lemma_le32_bounds(ph, 40);
            lemma_le32_bounds(ph, 44);
            lemma_count_nonneg(table, es, k);
            if k < n - 1 {
                lemma_count_before(table, es, k, n - 1);
                assert(prev.len() == loadable_count(table, es, n - 1));
                assert(loadable_count(table, es, k) < prev.len());
                assert(load_plan_spec(table, es, n) == match segment_of(entry_at(table, es, n - 1)) {
                    Some(sg) => prev.push(sg),
                    None => prev,
                });
                let idx = loadable_count(table, es, k);
                lemma_count_nonneg(table, es, k);
                match segment_of(entry_at(table, es, n - 1)) {
                    Some(sg) => {
                        assert(prev.push(sg)[idx] == prev[idx]);
                    },
                    None => {},
                }
                assert(load_plan_spec(table, es, n)[loadable_count(table, es, k)] == prev[loadable_count(table, es, k)]);
            }
        }
    }
}

} // verus!
