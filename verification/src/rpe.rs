use vstd::prelude::*;
use vstd::string::StringSliceAdditionalSpecFns;
use crate::text::{decimal, push_decimal, push_decimal64};
use crate::registry::push_bytes;
use crate::block::{BlockDevice, disk_of};
use crate::gpt::{read_disk, header_ok, size_ok, entry_count, lists_upto};
use crate::gpt::{DiskLayout, Partition};

verus! {

/// The up arrow.
pub const K_UP: u8 = 1;
/// The down arrow.
pub const K_DOWN: u8 = 2;
/// The left arrow.
pub const K_LEFT: u8 = 3;
/// The right arrow.
pub const K_RIGHT: u8 = 4;
/// Enter, on the main block or the keypad.
pub const K_ENTER: u8 = 5;
/// Escape.
pub const K_ESC: u8 = 6;

/// Whether the system runs as the installation environment.
pub struct RpeMode {
    pub on: bool,
}

impl RpeMode {
    /// Runs as the installation environment when `v`.
    pub fn set_mode(&mut self, v: bool)
        ensures
            final(self).on == v,
    {
        self.on = v;
    }

    /// Whether the system runs as the installation environment.
    pub fn is_rpe(&self) -> (r: bool)
        ensures
            r == self.on,
    {
        self.on
    }
}

/// The key a keyboard scancode (set 1) stands for: the arrows, Enter and Escape when
/// pressed; acknowledgements, self-test and echo replies, releases and other keys stand for
/// none.
pub open spec fn key_spec(sc: u8) -> Option<u8> {
    if sc == 0xFA || sc == 0xAA || sc == 0xEE || sc >= 0x80 {
        None
    } else if sc == 0x48 {
        Some(K_UP)
    } else if sc == 0x50 {
        Some(K_DOWN)
    } else if sc == 0x4B {
        Some(K_LEFT)
    } else if sc == 0x4D {
        Some(K_RIGHT)
    } else if sc == 0x1C || sc == 0x5A {
        Some(K_ENTER)
    } else if sc == 0x01 {
        Some(K_ESC)
    } else {
        None
    }
}

/// The key a read of the keyboard controller gives, with status byte `status` and data byte
/// `data`: only when the output buffer is full (bit 0) and the byte comes from the keyboard,
/// not the mouse (bit 5 clear), and then the key `data` stands for (see `key_spec`).
pub open spec fn key_step_spec(status: u8, data: u8) -> Option<u8> {
    if status % 2 == 1 && (status / 32) % 2 == 0 { key_spec(data) } else { None }
}

/// The key a read of the keyboard controller gives: see `key_step_spec`. Waiting for a key
/// is reading the controller until this gives one.
pub fn key_step(status: u8, data: u8) -> (r: Option<u8>)
    ensures
        r == key_step_spec(status, data),
{
    if status % 2 == 1 && (status / 32) % 2 == 0 { key_of_scancode(data) } else { None }
}

/// The key waiting for one gives when the controller is read as `reads` (status, data),
/// with the position of the read that gave it: the first read that gives a key.
pub open spec fn first_key(reads: Seq<(u8, u8)>) -> Option<(int, u8)>
    decreases reads.len(),
{
    if reads.len() == 0 {
        None
    } else {
        match first_key(reads.drop_last()) {
            Some(x) => Some(x),
            None => match key_step_spec(reads.last().0, reads.last().1) {
                Some(k) => Some((reads.len() - 1, k)),
                None => None,
            },
        }
    }
}

/// The first key the reads `reads` of the keyboard controller give: see `first_key`.
pub fn wait_key_in(reads: &[(u8, u8)]) -> (r: Option<(usize, u8)>)
    ensures
        match first_key(reads@) {
            Some((i, k)) => r == Some((i as usize, k)),
            None => r is None,
        },
{
    let mut i: usize = 0;
    while i < reads.len()
        invariant
            i <= reads@.len(),
            first_key(reads@.subrange(0, i as int)) is None,
        decreases reads@.len() - i,
    {
        let (st, d) = reads[i];
        let ghost pre = reads@.subrange(0, i + 1);
        assert(pre.drop_last() =~= reads@.subrange(0, i as int));
        if let Some(k) = key_step(st, d) {
            proof {
                lemma_first_key_prefix(reads@, i + 1);
            }
            return Some((i, k));
        }
        i = i + 1;
    }
    assert(reads@.subrange(0, reads@.len() as int) =~= reads@);
    None
}

/// A key found among the first reads is the one found among all of them.
proof fn lemma_first_key_prefix(reads: Seq<(u8, u8)>, n: int)
    requires
        0 <= n <= reads.len(),
        first_key(reads.subrange(0, n)) is Some,
    ensures
        first_key(reads) == first_key(reads.subrange(0, n)),
    decreases reads.len() - n,
{
    if n == reads.len() {
        assert(reads.subrange(0, n) =~= reads);
    } else {
        assert(reads.drop_last().subrange(0, n) =~= reads.subrange(0, n));
        lemma_first_key_prefix(reads.drop_last(), n);
    }
}

/// The key scancode `sc` stands for: see `key_spec`.
pub fn key_of_scancode(sc: u8) -> (r: Option<u8>)
    ensures
        r == key_spec(sc),
{
    if sc == 0xFA || sc == 0xAA || sc == 0xEE {
        return None;
    }
    if sc >= 0x80 {
        return None;
    }
    match sc {
        0x48 => Some(K_UP),
        0x50 => Some(K_DOWN),
        0x4B => Some(K_LEFT),
        0x4D => Some(K_RIGHT),
        0x1C | 0x5A => Some(K_ENTER),
        0x01 => Some(K_ESC),
        _ => None,
    }
}

/// One line of the partition list: a disk's heading, or a partition with its two lines of
/// text and where it lies.
pub struct Row {
    pub header: bool,
    pub selectable: bool,
    pub protected: bool,
    pub line1: Vec<u8>,
    pub line2: Vec<u8>,
    pub disk_kind: u8,
    pub first_lba: u64,
    pub sectors: u64,
    pub part_index: u32,
}

/// The first selectable row from `from` on.
pub open spec fn next_sel(rows: Seq<Row>, from: int) -> Option<int>
    decreases rows.len() - from,
{
    if from < 0 || from >= rows.len() {
        None
    } else if rows[from].selectable {
        Some(from)
    } else {
        next_sel(rows, from + 1)
    }
}

/// The last selectable row before `before`.
pub open spec fn prev_sel(rows: Seq<Row>, before: int) -> Option<int>
    decreases before,
{
    if before <= 0 || before > rows.len() {
        None
    } else if rows[before - 1].selectable {
        Some(before - 1)
    } else {
        prev_sel(rows, before - 1)
    }
}

proof fn lemma_next_sel(rows: Seq<Row>, from: int)
    ensures
        next_sel(rows, from) matches Some(i) ==> from <= i < rows.len() && rows[i].selectable,
    decreases rows.len() - from,
{
    if 0 <= from < rows.len() && !rows[from].selectable {
        lemma_next_sel(rows, from + 1);
    }
}

proof fn lemma_prev_sel(rows: Seq<Row>, before: int)
    ensures
        prev_sel(rows, before) matches Some(i) ==> 0 <= i < before && rows[i].selectable,
    decreases before,
{
    if 0 < before <= rows.len() && !rows[before - 1].selectable {
        lemma_prev_sel(rows, before - 1);
    }
}

/// The first selectable row from `from` on: see `next_sel`.
pub fn next_selectable(rows: &Vec<Row>, from: usize) -> (r: Option<usize>)
    ensures
        match r {
            Some(i) => next_sel(rows@, from as int) == Some(i as int),
            None => next_sel(rows@, from as int) is None,
        },
{
    let mut i: usize = from;
    while i < rows.len()
        invariant
            from <= i,
            next_sel(rows@, from as int) == next_sel(rows@, i as int),
        decreases rows@.len() - i,
    {
        if rows[i].selectable {
            return Some(i);
        }
        i = i + 1;
    }
    None
}

/// The last selectable row before `before`: see `prev_sel`.
pub fn prev_selectable(rows: &Vec<Row>, before: usize) -> (r: Option<usize>)
    requires
        before <= rows@.len(),
    ensures
        match r {
            Some(i) => prev_sel(rows@, before as int) == Some(i as int),
            None => prev_sel(rows@, before as int) is None,
        },
{
    let mut i: usize = before;
    while i > 0
        invariant
            i <= before <= rows@.len(),
            prev_sel(rows@, before as int) == prev_sel(rows@, i as int),
        decreases i,
    {
        if rows[i - 1].selectable {
            return Some(i - 1);
        }
        i = i - 1;
    }
    None
}

/// Where the installation wizard stands: the welcome screen, the notice that nothing can be
/// installed on, the partition list with a row selected, the final confirmation of a row,
/// the installation on a row, or an installation error.
#[derive(Clone, Copy, PartialEq, Eq, Structural)]
pub enum Wizard {
    Welcome,
    NoTarget,
    Select(usize),
    Confirm(usize),
    Installing(usize),
    Failed,
}

/// The wizard's step on key `key`: Enter leaves the welcome screen for the list (at its first
/// selectable row) or, when no row is selectable, for the notice, which Enter leaves for
/// the welcome screen; in the list the arrows move to the previous or next selectable row,
/// Enter asks for confirmation and Escape goes back to the welcome screen; Enter confirms
/// and starts the installation, Escape goes back to the list; after an error Enter goes back
/// to the list. Other keys change nothing, and keys do nothing during the installation.
pub open spec fn step_spec(rows: Seq<Row>, st: Wizard, key: u8) -> Wizard {
    match st {
        Wizard::Welcome => if key == K_ENTER {
            match next_sel(rows, 0) {
                Some(i) => Wizard::Select(i as usize),
                None => Wizard::NoTarget,
            }
        } else {
            st
        },
        Wizard::NoTarget => if key == K_ENTER { Wizard::Welcome } else { st },
        Wizard::Select(s) => if key == K_UP {
            match prev_sel(rows, s as int) {
                Some(i) => Wizard::Select(i as usize),
                None => st,
            }
        } else if key == K_DOWN {
            match next_sel(rows, s + 1) {
                Some(i) => Wizard::Select(i as usize),
                None => st,
            }
        } else if key == K_ENTER {
            Wizard::Confirm(s)
        } else if key == K_ESC {
            Wizard::Welcome
        } else {
            st
        },
        Wizard::Confirm(s) => if key == K_ENTER {
            Wizard::Installing(s)
        } else if key == K_ESC {
            match next_sel(rows, 0) {
                Some(i) => Wizard::Select(i as usize),
                None => Wizard::Welcome,
            }
        } else {
            st
        },
        Wizard::Installing(_) => st,
        Wizard::Failed => if key == K_ENTER {
            match next_sel(rows, 0) {
                Some(i) => Wizard::Select(i as usize),
                None => Wizard::Welcome,
            }
        } else {
            st
        },
    }
}

/// Whether wizard state `st` is one the wizard can be in over `rows`: a row it names is a
/// selectable row of the list.
pub open spec fn wizard_ok(rows: Seq<Row>, st: Wizard) -> bool {
    match st {
        Wizard::Select(s) => s < rows.len() && rows[s as int].selectable,
        Wizard::Confirm(s) => s < rows.len() && rows[s as int].selectable,
        Wizard::Installing(s) => s < rows.len() && rows[s as int].selectable,
        _ => true,
    }
}

/// The wizard's step on key `key`: see `step_spec`.
pub fn wizard_step(rows: &Vec<Row>, st: Wizard, key: u8) -> (r: Wizard)
    requires
        wizard_ok(rows@, st),
    ensures
        r == step_spec(rows@, st, key),
        wizard_ok(rows@, r),
{
    proof {
        lemma_next_sel(rows@, 0);
    }
    match st {
        Wizard::Welcome => {
            if key == K_ENTER {
                match next_selectable(rows, 0) {
                    Some(i) => Wizard::Select(i),
                    None => Wizard::NoTarget,
                }
            } else {
                st
            }
        },
        Wizard::NoTarget => if key == K_ENTER { Wizard::Welcome } else { st },
        Wizard::Select(s) => {
            if key == K_UP {
                proof {
                    lemma_prev_sel(rows@, s as int);
                }
                match prev_selectable(rows, s) {
                    Some(i) => Wizard::Select(i),
                    None => st,
                }
            } else if key == K_DOWN {
                proof {
                    lemma_next_sel(rows@, s + 1);
                }
                let _n = rows.len();
                match next_selectable(rows, s + 1) {
                    Some(i) => Wizard::Select(i),
                    None => st,
                }
            } else if key == K_ENTER {
                Wizard::Confirm(s)
            } else if key == K_ESC {
                Wizard::Welcome
            } else {
                st
            }
        },
        Wizard::Confirm(s) => {
            if key == K_ENTER {
                Wizard::Installing(s)
            } else if key == K_ESC {
                match next_selectable(rows, 0) {
                    Some(i) => Wizard::Select(i),
                    None => Wizard::Welcome,
                }
            } else {
                st
            }
        },
        Wizard::Installing(_) => st,
        Wizard::Failed => {
            if key == K_ENTER {
                match next_selectable(rows, 0) {
                    Some(i) => Wizard::Select(i),
                    None => Wizard::Welcome,
                }
            } else {
                st
            }
        },
    }
}

/// The wizard after the installation on the row it was installing on ends: on success the
/// wizard is done (`None`, the machine restarts), on failure it shows the error.
pub fn install_finished(st: Wizard, ok: bool) -> (r: Option<Wizard>)
    ensures
        st is Installing && ok ==> r is None,
        st is Installing && !ok ==> r == Some(Wizard::Failed),
        !(st is Installing) ==> r == Some(st),
{
    match st {
        Wizard::Installing(_) => if ok { None } else { Some(Wizard::Failed) },
        _ => Some(st),
    }
}

/// Whether row `r` is as given.
pub open spec fn row_is(
    r: Row,
    header: bool,
    selectable: bool,
    protected: bool,
    line1: Seq<u8>,
    line2: Seq<u8>,
    kind: u8,
    first_lba: u64,
    sectors: u64,
    part_index: u32,
) -> bool {
    &&& r.header == header
    &&& r.selectable == selectable
    &&& r.protected == protected
    &&& r.line1@ == line1
    &&& r.line2@ == line2
    &&& r.disk_kind == kind
    &&& r.first_lba == first_lba
    &&& r.sectors == sectors
    &&& r.part_index == part_index
}

/// The size of `sectors` 512-byte blocks as shown: whole megabytes with ` MB` under a
/// gigabyte, else gigabytes with one decimal (cut, not rounded) and ` GB`.
pub open spec fn size_text(sectors: u64) -> Seq<u8> {
    let mb = sectors / 2048;
    if mb >= 1024 {
        decimal((mb / 1024) as nat) + ".".spec_bytes() + decimal((((mb % 1024) * 10) / 1024) as nat) + " GB".spec_bytes()
    } else {
        decimal(mb as nat) + " MB".spec_bytes()
    }
}

/// The first line of a partition's row: its table position and label.
pub open spec fn part_line1(p: Partition) -> Seq<u8> {
    "  ".spec_bytes() + decimal(p.index as nat) + ": ".spec_bytes() + p.label.spec_bytes()
}

/// The second line of a partition's row: its size and, when it has one, its name in quotes.
pub open spec fn part_line2(p: Partition) -> Seq<u8> {
    size_text(p.sectors) + if p.name@.len() > 0 {
        "   \"".spec_bytes() + p.name@ + "\"".spec_bytes()
    } else {
        Seq::empty()
    }
}

/// Whether `r` is the row of partition `p` of a disk of kind `kind`: selectable unless
/// protected.
pub open spec fn part_row(r: Row, p: Partition, kind: u8) -> bool {
    row_is(r, false, !p.protected, p.protected, part_line1(p), part_line2(p), kind, p.first_lba, p.sectors, p.index)
}

/// The row of partition `p` of a disk of kind `kind`: see `part_row`.
pub fn partition_row(p: &Partition, kind: u8) -> (r: Row)
    ensures
        part_row(r, *p, kind),
{
    let mut l1: Vec<u8> = Vec::new();
    push_bytes(&mut l1, "  ".as_bytes());
    push_decimal(&mut l1, p.index);
    push_bytes(&mut l1, ": ".as_bytes());
    push_bytes(&mut l1, p.label.as_bytes());
    let mut l2: Vec<u8> = Vec::new();
    let mb: u64 = p.sectors / 2048;
    if mb >= 1024 {
        push_decimal64(&mut l2, mb / 1024);
        push_bytes(&mut l2, ".".as_bytes());
        push_decimal64(&mut l2, ((mb % 1024) * 10) / 1024);
        push_bytes(&mut l2, " GB".as_bytes());
    } else {
        push_decimal64(&mut l2, mb);
        push_bytes(&mut l2, " MB".as_bytes());
    }
    let ghost sized = l2@;
    if p.name.len() > 0 {
        push_bytes(&mut l2, "   \"".as_bytes());
        push_bytes(&mut l2, p.name.as_slice());
        push_bytes(&mut l2, "\"".as_bytes());
    }
    proof {
        assert(sized =~= size_text(p.sectors));
        assert(l1@ =~= part_line1(*p));
        assert(l2@ =~= part_line2(*p));
    }
    Row {
        header: false,
        selectable: !p.protected,
        protected: p.protected,
        line1: l1,
        line2: l2,
        disk_kind: kind,
        first_lba: p.first_lba,
        sectors: p.sectors,
        part_index: p.index,
    }
}

/// Whether `rows` are the rows of the disk named `name`, of kind `kind`, with blocks of
/// `block_size` bytes, `total` of them, laid out as `layout`: a heading (which says the disk
/// is not supported when its blocks are not 512 bytes, and gives its size in whole
/// gigabytes otherwise), then a protected notice when it has no GPT, or else a row per
/// partition in table order.
pub open spec fn disk_rows(rows: Seq<Row>, kind: u8, name: Seq<u8>, block_size: u32, total: u64, layout: &DiskLayout) -> bool {
    if block_size != 512 {
        &&& rows.len() == 1
        &&& row_is(rows[0], true, false, false, name + "  (512B degil - desteklenmiyor)".spec_bytes(), seq![], kind, 0, 0, 0)
    } else {
        &&& rows.len() >= 1
        &&& row_is(rows[0], true, false, false,
                name + "  (".spec_bytes() + decimal((total / 0x20_0000) as nat) + " GB)".spec_bytes(), seq![], kind, 0, 0, 0)
        &&& if !layout.has_gpt {
            &&& rows.len() == 2
            &&& row_is(rows[1], false, false, true, "  GPT yok (MBR/bos disk - desteklenmiyor)".spec_bytes(), seq![], kind, 0, 0, 0)
        } else {
            &&& rows.len() == 1 + layout.partitions@.len()
            &&& forall|j: int| 0 <= j < layout.partitions@.len() ==> part_row(#[trigger] rows[1 + j], layout.partitions@[j], kind)
        }
    }
}

/// A heading or notice row with no partition behind it.
fn plain_row(header: bool, protected: bool, line1: Vec<u8>, kind: u8) -> (r: Row)
    ensures
        row_is(r, header, false, protected, line1@, seq![], kind, 0, 0, 0),
{
    Row { header, selectable: false, protected, line1, line2: Vec::new(), disk_kind: kind, first_lba: 0, sectors: 0, part_index: 0 }
}

/// Appends the rows of the disk named `name`, of kind `kind`, with blocks of `block_size`
/// bytes, `total` of them, laid out as `layout`: see `disk_rows`.
pub fn push_layout(rows: &mut Vec<Row>, kind: u8, name: &[u8], block_size: u32, total: u64, layout: &DiskLayout)
    ensures
        final(rows)@.len() >= old(rows)@.len(),
        final(rows)@.subrange(0, old(rows)@.len() as int) == old(rows)@,
        disk_rows(final(rows)@.subrange(old(rows)@.len() as int, final(rows)@.len() as int), kind, name@, block_size, total, layout),
{
    let ghost n0 = rows@.len() as int;
    let mut h1: Vec<u8> = Vec::new();
    push_bytes(&mut h1, name);
    if block_size != 512 {
        push_bytes(&mut h1, "  (512B degil - desteklenmiyor)".as_bytes());
        rows.push(plain_row(true, false, h1, kind));
        assert(rows@.subrange(0, n0) =~= old(rows)@);
        return;
    }
    push_bytes(&mut h1, "  (".as_bytes());
    push_decimal64(&mut h1, total / 0x20_0000);
    push_bytes(&mut h1, " GB)".as_bytes());
    rows.push(plain_row(true, false, h1, kind));
    if !layout.has_gpt {
        let mut t: Vec<u8> = Vec::new();
        push_bytes(&mut t, "  GPT yok (MBR/bos disk - desteklenmiyor)".as_bytes());
        rows.push(plain_row(false, true, t, kind));
        assert(rows@.subrange(0, n0) =~= old(rows)@);
        return;
    }
    let mut j: usize = 0;
    while j < layout.partitions.len()
        invariant
            layout.has_gpt,
            block_size == 512,
            n0 == old(rows)@.len(),
            j <= layout.partitions@.len(),
            rows@.len() == n0 + 1 + j,
            rows@.subrange(0, n0) == old(rows)@,
            row_is(rows@[n0], true, false, false,
                name@ + "  (".spec_bytes() + decimal((total / 0x20_0000) as nat) + " GB)".spec_bytes(), seq![], kind, 0, 0, 0),
            forall|k: int| 0 <= k < j ==> part_row(#[trigger] rows@[n0 + 1 + k], layout.partitions@[k], kind),
        decreases layout.partitions@.len() - j,
    {
        let r = partition_row(&layout.partitions[j], kind);
        rows.push(r);
        assert(rows@.subrange(0, n0) =~= old(rows)@);
        j = j + 1;
    }
    proof {
        let tail = rows@.subrange(n0, rows@.len() as int);
        assert forall|k: int| 0 <= k < layout.partitions@.len() implies part_row(#[trigger] tail[1 + k], layout.partitions@[k], kind) by {
            assert(tail[1 + k] == rows@[n0 + 1 + k]);
        }
    }
}

/// Whether `l` is a layout that reading `disk` of `total` blocks can give: a partition table
/// only when the header is valid, and then the partitions among the first entries of it.
pub open spec fn layout_of(disk: crate::block::Disk, total: u64, l: &DiskLayout) -> bool {
    let h = disk(1);
    &&& l.total_sectors == total
    &&& l.has_gpt ==> header_ok(h)
    &&& !l.has_gpt ==> l.partitions@.len() == 0
    &&& l.has_gpt && !size_ok(h) ==> l.partitions@.len() == 0
    &&& l.has_gpt && size_ok(h) ==> exists|n: int| 0 <= n <= entry_count(h) && #[trigger] lists_upto(l.partitions@, disk, h, n)
}

/// Appends the rows of the disk behind `dev` (named `name`, of kind `kind`, with blocks of
/// `block_size` bytes, `total` of them): see `push_layout`, over the layout `read_disk`
/// gives.
pub fn push_disk<D: BlockDevice>(rows: &mut Vec<Row>, dev: &mut D, kind: u8, name: &[u8], block_size: u32, total: u64)
    ensures
        disk_of(final(dev)) == disk_of(old(dev)),
        final(rows)@.len() >= old(rows)@.len(),
        final(rows)@.subrange(0, old(rows)@.len() as int) == old(rows)@,
        exists|l: DiskLayout| #[trigger] disk_rows(
            final(rows)@.subrange(old(rows)@.len() as int, final(rows)@.len() as int),
            kind,
            name@,
            block_size,
            total,
            &l,
        ) && (block_size != 512 ==> l.total_sectors == total && !l.has_gpt && l.partitions@.len() == 0)
            && (block_size == 512 ==> layout_of(disk_of(old(dev)), total, &l)),
{
    if block_size != 512 {
        let empty = DiskLayout { total_sectors: total, has_gpt: false, partitions: Vec::new() };
        push_layout(rows, kind, name, block_size, total, &empty);
        return;
    }
    let layout = read_disk(dev, total);
    push_layout(rows, kind, name, block_size, total, &layout);
    assert(layout_of(disk_of(old(dev)), total, &layout));
}

} // verus!
