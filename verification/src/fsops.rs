use vstd::prelude::*;
use vstd::string::StringSliceAdditionalSpecFns;
use crate::bytes::{ascii_upper, to_ascii_upper, le16, le32, get_le16, get_le32, slice_of, bytes_eq, copy_of, splice, le16_bytes, le32_bytes, put_bytes, put_le16, put_le32};
use crate::registry::starts_with;
use crate::text::utf8_valid;
use crate::block::{BlockDevice, Disk, disk_of, disk_put, read_sector, write_sector, healthy};
use crate::fat32::{put_blocks, Fat32, DirEntry, DirInfo, max_chain, run_until, is_chain_end, patch_record, truncated};
use crate::fat32::{lemma_fat_read_after_write, lemma_fat_write_keeps_others, lemma_fat_put_keeps_cluster, lemma_cluster_put_keeps_entry, lemma_cluster_write_keeps_others, lemma_cluster_read_after_write};
use crate::dir_frame::{store_ready, lemma_first_put_named, lemma_ready_after_insert, walk_covered, walk_busy, dir_kept, free_set, clusters_for, lemma_clusters_left, lemma_free_set_pick, lemma_alloc_step, lemma_fat_put_keeps_dir, lemma_kept_findable};
use crate::bytes::{zeroes, find_byte, eq_ignore_case, bytes_eq_ignore_case, first_index, lemma_first_index, lemma_first_index_range};

verus! {

/// Whether `c` is an ASCII letter.
pub open spec fn is_alpha(c: u8) -> bool {
    (65 <= c <= 90) || (97 <= c <= 122)
}

/// The drive of a path written `X:` or `X:/rest`: the letter in upper case and the position
/// where the rest of the path starts.
pub open spec fn drive_of(p: Seq<u8>) -> Option<(u8, int)> {
    if p.len() >= 2 && p[1] == 58 && is_alpha(p[0]) {
        if p.len() == 2 {
            Some((ascii_upper(p[0]), 2))
        } else if p[2] == 47 {
            Some((ascii_upper(p[0]), 3))
        } else {
            None
        }
    } else {
        None
    }
}

/// Splits a drive prefix off `path`: the drive letter in upper case and where the rest
/// starts.
pub fn split_drive(path: &[u8]) -> (r: Option<(u8, usize)>)
    ensures
        match r {
            Some((l, k)) => drive_of(path@) == Some((l, k as int)),
            None => drive_of(path@) is None,
        },
{
    if path.len() >= 2 && path[1] == 58 && ((65 <= path[0] && path[0] <= 90) || (97 <= path[0]
        && path[0] <= 122)) {
        if path.len() == 2 {
            return Some((to_ascii_upper(path[0]), 2));
        }
        if path[2] == 47 {
            return Some((to_ascii_upper(path[0]), 3));
        }
    }
    None
}

/// The drive letter a path names, or `system` when it names none.
pub open spec fn letter_spec(p: Seq<u8>, system: u8) -> u8 {
    match drive_of(p) {
        Some((l, _)) => l,
        None => system,
    }
}

/// The drive letter of `path`; a path without one lies on the system drive `system`.
pub fn letter_of(path: &[u8], system: u8) -> (r: u8)
    ensures
        r == letter_spec(path@, system),
{
    match split_drive(path) {
        Some((l, _)) => l,
        None => system,
    }
}

/// Position of the last `c` in `s`.
pub open spec fn last_index(s: Seq<u8>, c: u8) -> Option<int>
    decreases s.len(),
{
    if s.len() == 0 {
        None
    } else if s.last() == c {
        Some(s.len() - 1)
    } else {
        last_index(s.drop_last(), c)
    }
}

proof fn lemma_last_index(s: Seq<u8>, c: u8)
    ensures
        match last_index(s, c) {
            Some(i) => 0 <= i < s.len() && s[i] == c && forall|j: int| i < j < s.len() ==> s[j] != c,
            None => forall|j: int| 0 <= j < s.len() ==> s[j] != c,
        },
    decreases s.len(),
{
    if s.len() > 0 && s.last() != c {
        lemma_last_index(s.drop_last(), c);
        assert(forall|j: int| 0 <= j < s.len() - 1 ==> s.drop_last()[j] == s[j]);
    }
}

/// Position of the last `c` in `s`, if any.
pub fn rfind_byte(s: &[u8], c: u8) -> (r: Option<usize>)
    ensures
        match r {
            Some(i) => last_index(s@, c) == Some(i as int),
            None => last_index(s@, c) is None,
        },
{
    let mut i = s.len();
    assert(s@.subrange(0, i as int) =~= s@);
    while i > 0
        invariant
            i <= s@.len(),
            last_index(s@, c) == last_index(s@.subrange(0, i as int), c),
        decreases i,
    {
        let ghost pre = s@.subrange(0, i as int);
        if s[i - 1] == c {
            return Some(i - 1);
        }
        assert(pre.drop_last() =~= s@.subrange(0, i - 1));
        i = i - 1;
    }
    None
}

/// `s` padded with spaces to `n` bytes.
pub open spec fn pad(s: Seq<u8>, n: nat) -> Seq<u8> {
    s + Seq::new((n - s.len()) as nat, |i: int| 32u8)
}

/// The 8.3 directory name of a name: base and extension in upper case, each padded with
/// spaces, split at the last `.`; names whose base is empty or longer than eight bytes or
/// whose extension is longer than three have none.
pub open spec fn name83_spec(name: Seq<u8>) -> Option<Seq<u8>> {
    let up = name.map_values(|c: u8| ascii_upper(c));
    let base = match last_index(name, 46) {
        Some(d) => up.subrange(0, d),
        None => up,
    };
    let ext = match last_index(name, 46) {
        Some(d) => up.subrange(d + 1, up.len() as int),
        None => Seq::<u8>::empty(),
    };
    if base.len() == 0 || base.len() > 8 || ext.len() > 3 {
        None
    } else {
        Some(pad(base, 8) + pad(ext, 3))
    }
}

/// The 8.3 directory name of a file name (see `name83_spec`); names that are empty or hold
/// `:`, `/` or `\` have none.
pub open spec fn short_name_spec(name: Seq<u8>) -> Option<Seq<u8>> {
    if name.len() == 0 || name.contains(58) || name.contains(47) || name.contains(92) {
        None
    } else {
        name83_spec(name)
    }
}

/// Whether `s` holds `c`.
fn has_byte(s: &[u8], c: u8) -> (r: bool)
    ensures
        r == s@.contains(c),
{
    let mut i: usize = 0;
    while i < s.len()
        invariant
            i <= s@.len(),
            forall|j: int| 0 <= j < i ==> s@[j] != c,
        decreases s@.len() - i,
    {
        if s[i] == c {
            assert(s@[i as int] == c);
            return true;
        }
        i = i + 1;
    }
    false
}

/// The 8.3 directory name of `name`: see `short_name_spec`.
pub fn short_name_83(name: &[u8]) -> (r: Option<[u8; 11]>)
    ensures
        match r {
            Some(sn) => short_name_spec(name@) == Some(sn@),
            None => short_name_spec(name@) is None,
        },
{
    if name.len() == 0 || has_byte(name, 58) || has_byte(name, 47) || has_byte(name, 92) {
        return None;
    }
    name_83(name)
}

/// The 8.3 directory name of `name`, with no check of the characters in it: see
/// `name83_spec`.
pub fn name_83(name: &[u8]) -> (r: Option<[u8; 11]>)
    ensures
        match r {
            Some(sn) => name83_spec(name@) == Some(sn@),
            None => name83_spec(name@) is None,
        },
{
    let _n = name.len();
    let ghost up = name@.map_values(|c: u8| ascii_upper(c));
    let dot = rfind_byte(name, 46);
    proof {
        lemma_last_index(name@, 46);
    }
    let (bs, be, es, ee) = match dot {
        Some(d) => (0usize, d, d + 1, name.len()),
        None => (0usize, name.len(), name.len(), name.len()),
    };
    let blen = be - bs;
    let elen = ee - es;
    if blen == 0 || blen > 8 || elen > 3 {
        return None;
    }
    let mut out = [32u8; 11];
    let mut i: usize = 0;
    while i < blen
        invariant
            blen <= 8,
            be <= name@.len(),
            blen == be,
            bs == 0,
            i <= blen,
            out@.len() == 11,
            forall|j: int| 0 <= j < i ==> out@[j] == ascii_upper(name@[j]),
            forall|j: int| i <= j < 11 ==> out@[j] == 32,
        decreases blen - i,
    {
        out[i] = to_ascii_upper(name[i]);
        i = i + 1;
    }
    let mut k: usize = 0;
    while k < elen
        invariant
            elen <= 3,
            ee == name@.len(),
            es + elen == ee,
            blen <= 8,
            k <= elen,
            out@.len() == 11,
            forall|j: int| 0 <= j < blen ==> out@[j] == ascii_upper(name@[j]),
            forall|j: int| blen <= j < 8 ==> out@[j] == 32,
            forall|j: int| 8 <= j < 8 + k ==> out@[j] == ascii_upper(name@[es + j - 8]),
            forall|j: int| 8 + k <= j < 11 ==> out@[j] == 32,
        decreases elen - k,
    {
        out[8 + k] = to_ascii_upper(name[es + k]);
        k = k + 1;
    }
    proof {
        let base = match last_index(name@, 46) {
            Some(d) => up.subrange(0, d),
            None => up,
        };
        let ext = match last_index(name@, 46) {
            Some(d) => up.subrange(d + 1, up.len() as int),
            None => Seq::<u8>::empty(),
        };
        assert(base.len() == blen);
        assert(ext.len() == elen);
        assert(out@ =~= pad(base, 8) + pad(ext, 3));
    }
    Some(out)
}

/// The parent directory and the last component of a path, split at its last `/`.
pub open spec fn parent_spec(p: Seq<u8>) -> (Seq<u8>, Seq<u8>) {
    match last_index(p, 47) {
        Some(i) => (p.subrange(0, i), p.subrange(i + 1, p.len() as int)),
        None => (Seq::empty(), p),
    }
}

/// Splits `path` into its parent directory and its last component.
pub fn split_parent(path: &[u8]) -> (r: (Vec<u8>, Vec<u8>))
    ensures
        (r.0@, r.1@) == parent_spec(path@),
{
    let _n = path.len();
    match rfind_byte(path, 47) {
        Some(i) => {
            proof {
                lemma_last_index(path@, 47);
            }
            (slice_of(path, 0, i), slice_of(path, i + 1, path.len()))
        },
        None => (Vec::new(), copy_of(path)),
    }
}

/// The path a request buffer holds at `start`: a little-endian length in two bytes, then that
/// many bytes of UTF-8; with the position after it.
pub open spec fn path_at(buf: Seq<u8>, start: int) -> Option<(Seq<u8>, int)> {
    if start + 2 > buf.len() {
        None
    } else {
        let l = le16(buf, start);
        if start + 2 + l > buf.len() {
            None
        } else {
            let s = buf.subrange(start + 2, start + 2 + l);
            if vstd::utf8::valid_utf8(s) {
                Some((s, start + 2 + l))
            } else {
                None
            }
        }
    }
}

/// Reads the length-prefixed path at `start` of a request buffer.
pub fn read_path(buf: &[u8], start: usize) -> (r: Option<(Vec<u8>, usize)>)
    ensures
        match r {
            Some((s, next)) => path_at(buf@, start as int) == Some((s@, next as int)),
            None => path_at(buf@, start as int) is None,
        },
{
    if start > buf.len() || buf.len() - start < 2 {
        return None;
    }
    let l = get_le16(buf, start) as usize;
    if buf.len() - start - 2 < l {
        return None;
    }
    let s = slice_of(buf, start + 2, start + 2 + l);
    if !utf8_valid(s.as_slice()) {
        return None;
    }
    Some((s, start + 2 + l))
}

/// Whether `s` ends with `suf`.
pub open spec fn ends_with(s: Seq<u8>, suf: Seq<u8>) -> bool {
    suf.len() <= s.len() && s.subrange(s.len() - suf.len(), s.len() as int) == suf
}

fn has_suffix(s: &[u8], suf: &[u8]) -> (r: bool)
    ensures
        r == ends_with(s@, suf@),
{
    if suf.len() > s.len() {
        return false;
    }
    let tail = slice_of(s, s.len() - suf.len(), s.len());
    bytes_eq(tail.as_slice(), suf)
}

fn has_prefix(s: &[u8], pre: &[u8]) -> (r: bool)
    ensures
        r == starts_with(s@, pre@),
{
    if pre.len() > s.len() {
        return false;
    }
    let head = slice_of(s, 0, pre.len());
    bytes_eq(head.as_slice(), pre)
}

/// Whether a path names something the system needs: a drive root, the `RSYS` tree, the
/// `USERS` or `APPS` directory, or a file named like the kernel, the core or the registry
/// (ASCII case ignored).
pub open spec fn critical(p: Seq<u8>) -> bool {
    let up = p.map_values(|c: u8| ascii_upper(c));
    let q = match drive_of(up) {
        Some((_, k)) => up.subrange(k, up.len() as int),
        None => up,
    };
    ||| q.len() == 0
    ||| q == "RSYS".spec_bytes()
    ||| starts_with(q, "RSYS/".spec_bytes())
    ||| q == "USERS".spec_bytes()
    ||| q == "APPS".spec_bytes()
    ||| ends_with(q, "CORE.BIN".spec_bytes())
    ||| ends_with(q, "KERNEL.ELF".spec_bytes())
    ||| ends_with(q, "REGISTRY.DAT".spec_bytes())
}

/// Whether `path` names something the system needs (see `critical`).
pub fn is_critical(path: &[u8]) -> (r: bool)
    ensures
        r == critical(path@),
{
    let mut up: Vec<u8> = Vec::new();
    let mut i: usize = 0;
    while i < path.len()
        invariant
            i <= path@.len(),
            up@ == path@.subrange(0, i as int).map_values(|c: u8| ascii_upper(c)),
        decreases path@.len() - i,
    {
        up.push(to_ascii_upper(path[i]));
        i = i + 1;
        assert(up@ =~= path@.subrange(0, i as int).map_values(|c: u8| ascii_upper(c)));
    }
    assert(path@.subrange(0, path@.len() as int) =~= path@);
    let q = match split_drive(up.as_slice()) {
        Some((_, k)) => slice_of(up.as_slice(), k, up.len()),
        None => copy_of(up.as_slice()),
    };
    let qs = q.as_slice();
    qs.len() == 0 || bytes_eq(qs, "RSYS".as_bytes()) || has_prefix(qs, "RSYS/".as_bytes())
        || bytes_eq(qs, "USERS".as_bytes()) || bytes_eq(qs, "APPS".as_bytes()) || has_suffix(
        qs,
        "CORE.BIN".as_bytes(),
    ) || has_suffix(qs, "KERNEL.ELF".as_bytes()) || has_suffix(qs, "REGISTRY.DAT".as_bytes())
}

} // verus!

verus! {

/// A mounted FAT32 volume: its drive letter, label, kind (0 a local disk, 1 a removable one)
/// and size, with its geometry and the device it lives on.
pub struct Drive<D: BlockDevice> {
    pub letter: u8,
    pub label: Vec<u8>,
    pub kind: u8,
    pub size_mb: u32,
    pub fat: Fat32,
    pub dev: D,
}

/// The drive table, in mounting order (the first drive is the system drive), and the
/// cluster where the next search for a free cluster starts.
pub struct Drives<D: BlockDevice> {
    pub list: Vec<Drive<D>>,
    pub free_hint: u32,
}

/// The drive that a path resolves to, with the position where the path on that drive starts:
/// a path with a drive prefix resolves to the first drive with that letter, one without to
/// the system drive.
pub open spec fn resolve_spec(letters: Seq<u8>, p: Seq<u8>) -> Option<(int, int)> {
    match drive_of(p) {
        Some((l, k)) => match first_index(letters, l) {
            Some(i) => Some((i, k)),
            None => None,
        },
        None => if letters.len() > 0 {
            Some((0, 0))
        } else {
            None
        },
    }
}

impl<D: BlockDevice> Drives<D> {
    /// Every drive has a geometry this driver works with.
    pub open spec fn wf(&self) -> bool {
        forall|i: int| 0 <= i < self.list@.len() ==> (#[trigger] self.list@[i]).fat.wf()
    }

    /// Every drive's device serves each block, at the size of its volume's blocks.
    pub open spec fn healthy(&self) -> bool {
        forall|i: int| 0 <= i < self.list@.len()
            ==> healthy(&(#[trigger] self.list@[i]).dev, self.list@[i].fat.bytes_per_sector as int)
    }

    /// The drive letters, in order.
    pub open spec fn letters(&self) -> Seq<u8> {
        self.list@.map_values(|d: Drive<D>| d.letter)
    }

    /// The contents of the device of drive `i`.
    pub open spec fn disk(&self, i: int) -> Disk {
        disk_of(&self.list@[i].dev)
    }

    /// No drives; the free-cluster search starts at cluster 3.
    pub fn new() -> (r: Self)
        ensures
            r.wf(),
            r.list@.len() == 0,
            r.free_hint == 3,
    {
        Drives { list: Vec::new(), free_hint: 3 }
    }

    /// Mounts a volume under `letter` (kept in upper case). A geometry this driver cannot work
    /// with is refused.
    pub fn add_drive(&mut self, letter: u8, label: Vec<u8>, kind: u8, size_mb: u32, fat: Fat32, dev: D) -> (r: bool)
        requires
            old(self).wf(),
        ensures
            final(self).wf(),
            final(self).free_hint == old(self).free_hint,
            r == fat.wf(),
            r ==> final(self).list@ == old(self).list@.push(
                Drive { letter: ascii_upper(letter), label, kind, size_mb, fat, dev },
            ),
            !r ==> final(self).list@ == old(self).list@,
    {
        if !fat.usable() {
            return false;
        }
        self.list.push(Drive { letter: to_ascii_upper(letter), label, kind, size_mb, fat, dev });
        assert forall|i: int| 0 <= i < self.list@.len() implies (#[trigger] self.list@[i]).fat.wf() by {
            if i < old(self).list@.len() {
                assert(self.list@[i] == old(self).list@[i]);
            }
        }
        true
    }

    /// Number of mounted drives.
    pub fn drive_count(&self) -> (r: usize)
        ensures
            r == self.list@.len(),
    {
        self.list.len()
    }

    /// Letter of the system drive (the first one mounted), `C` when there is none.
    pub fn system_letter(&self) -> (r: u8)
        ensures
            r == (if self.list@.len() > 0 { self.list@[0].letter } else { 67u8 }),
    {
        if self.list.len() > 0 {
            self.list[0].letter
        } else {
            67
        }
    }

    /// Index of the first drive with letter `l` (ASCII case ignored).
    pub fn fs_by_letter(&self, l: u8) -> (r: Option<usize>)
        ensures
            match r {
                Some(i) => first_index(self.letters(), ascii_upper(l)) == Some(i as int),
                None => first_index(self.letters(), ascii_upper(l)) is None,
            },
    {
        let u = to_ascii_upper(l);
        let mut i: usize = 0;
        while i < self.list.len()
            invariant
                i <= self.list@.len(),
                u == ascii_upper(l),
                forall|j: int| 0 <= j < i ==> self.letters()[j] != u,
            decreases self.list@.len() - i,
        {
            if self.list[i].letter == u {
                proof {
                    lemma_first_index(self.letters(), u, i as int);
                }
                return Some(i);
            }
            i = i + 1;
        }
        proof {
            lemma_first_index(self.letters(), u, i as int);
        }
        None
    }

    /// The drive `path` lies on and where the path on it starts.
    pub fn resolve(&self, path: &[u8]) -> (r: Option<(usize, usize)>)
        ensures
            match r {
                Some((i, k)) => resolve_spec(self.letters(), path@) == Some((i as int, k as int)),
                None => resolve_spec(self.letters(), path@) is None,
            },
            r matches Some((i, _)) ==> i < self.list@.len(),
    {
        proof {
            lemma_first_index_range(self.letters(), 0);
        }
        match split_drive(path) {
            Some((l, k)) => {
                proof {
                    assert(ascii_upper(l) == l);
                    lemma_first_index_range(self.letters(), l);
                }
                match self.fs_by_letter(l) {
                    Some(i) => Some((i, k)),
                    None => None,
                }
            },
            None => {
                if self.list.len() > 0 {
                    Some((0, 0))
                } else {
                    None
                }
            },
        }
    }
}

impl Fat32 {
    /// Whether this driver can work with the geometry (see `wf`).
    pub fn usable(&self) -> (r: bool)
        ensures
            r == self.wf(),
    {
        0 < self.bytes_per_sector && self.bytes_per_sector <= 0xFFFF && self.bytes_per_sector % 4 == 0
            && 0 < self.sectors_per_cluster && self.sectors_per_cluster <= 0xFF && self.fat_start_lba
            <= 0xFFFF_FFFF && self.data_start_lba <= 0xFFFF_FFFF
    }
}

} // verus!

verus! {

/// Position of the first `/` at or after `pos` in `p`, or the end of `p`.
pub open spec fn next_slash(p: Seq<u8>, pos: int) -> int {
    pos + run_until(p.subrange(pos, p.len() as int), 47)
}

/// The non-empty `/`-separated components of `p[pos..]`, in order.
pub open spec fn parts_from(p: Seq<u8>, pos: int) -> Seq<Seq<u8>>
    decreases p.len() - pos,
{
    if pos < 0 || pos > p.len() {
        Seq::empty()
    } else {
        let j = next_slash(p, pos);
        proof {
            lemma_first_index_range(p.subrange(pos, p.len() as int), 47);
        }
        let head = p.subrange(pos, j);
        let rest = if j < p.len() {
            parts_from(p, j + 1)
        } else {
            Seq::empty()
        };
        if head.len() == 0 {
            rest
        } else {
            seq![head] + rest
        }
    }
}

/// Whether an entry is of the kind asked for: 0 any, 1 a directory, 2 a file.
pub open spec fn kind_ok(e: DirInfo, kind: u8) -> bool {
    kind == 0 || (kind == 1 && e.is_dir) || (kind == 2 && !e.is_dir)
}

/// Index of the first entry of `es` of kind `kind` named `name` (ASCII case ignored).
pub open spec fn first_named(es: Seq<DirInfo>, name: Seq<u8>, kind: u8) -> Option<int>
    decreases es.len(),
{
    if es.len() == 0 {
        None
    } else {
        match first_named(es.drop_last(), name, kind) {
            Some(i) => Some(i),
            None => if kind_ok(es.last(), kind) && eq_ignore_case(es.last().name, name) {
                Some(es.len() - 1)
            } else {
                None
            },
        }
    }
}

proof fn lemma_first_named_prefix(es: Seq<DirInfo>, name: Seq<u8>, kind: u8, k: int)
    requires
        0 <= k <= es.len(),
        first_named(es.subrange(0, k), name, kind) is Some,
    ensures
        first_named(es, name, kind) == first_named(es.subrange(0, k), name, kind),
    decreases es.len() - k,
{
    if k < es.len() {
        let p = es.subrange(0, k + 1);
        assert(p.drop_last() =~= es.subrange(0, k));
        lemma_first_named_prefix(es, name, kind, k + 1);
    } else {
        assert(es.subrange(0, k) =~= es);
    }
}

pub(crate) proof fn lemma_first_named_range(es: Seq<DirInfo>, name: Seq<u8>, kind: u8)
    ensures
        first_named(es, name, kind) matches Some(i) ==> 0 <= i < es.len() && kind_ok(es[i], kind)
            && eq_ignore_case(es[i].name, name),
    decreases es.len(),
{
    if es.len() > 0 {
        lemma_first_named_range(es.drop_last(), name, kind);
    }
}

/// Index of the first entry of kind `kind` named `name` (ASCII case ignored).
pub fn find_named(es: &Vec<DirEntry>, name: &[u8], kind: u8) -> (r: Option<usize>)
    ensures
        match r {
            Some(i) => first_named(es@.map_values(|e: DirEntry| e@), name@, kind) == Some(i as int)
                && i < es@.len(),
            None => first_named(es@.map_values(|e: DirEntry| e@), name@, kind) is None,
        },
{
    let ghost v = es@.map_values(|e: DirEntry| e@);
    let mut i: usize = 0;
    assert(v.subrange(0, 0) =~= Seq::<DirInfo>::empty());
    while i < es.len()
        invariant
            i <= es@.len(),
            v == es@.map_values(|e: DirEntry| e@),
            first_named(v.subrange(0, i as int), name@, kind) is None,
        decreases es@.len() - i,
    {
        let e = &es[i];
        let ok = kind == 0 || (kind == 1 && e.is_dir) || (kind == 2 && !e.is_dir);
        let ghost p = v.subrange(0, i + 1);
        assert(p.drop_last() =~= v.subrange(0, i as int));
        assert(p.last() == e@);
        if ok && bytes_eq_ignore_case(e.name.as_slice(), name) {
            proof {
                lemma_first_named_prefix(v, name@, kind, i + 1);
            }
            return Some(i);
        }
        i = i + 1;
    }
    assert(v.subrange(0, i as int) =~= v);
    None
}

impl Fat32 {
    /// The entries of the directory whose first cluster is `c`, when its chain can be followed.
    pub open spec fn dir_entries(&self, disk: Disk, c: u32) -> Option<Seq<DirInfo>> {
        match self.chain(disk, c, max_chain()) {
            Some(cs) => Some(self.scan_clusters(disk, cs, c).entries),
            None => None,
        }
    }

    /// The directory reached from the directory at `c` through the components `parts`, each
    /// naming a subdirectory (the first of that name, ASCII case ignored).
    pub open spec fn walk(&self, disk: Disk, c: u32, parts: Seq<Seq<u8>>) -> Option<u32>
        decreases parts.len(),
    {
        if parts.len() == 0 {
            Some(c)
        } else {
            match self.dir_entries(disk, c) {
                Some(es) => match first_named(es, parts[0], 1) {
                    Some(i) => self.walk(disk, es[i].first_cluster, parts.subrange(1, parts.len() as int)),
                    None => None,
                },
                None => None,
            }
        }
    }
}

/// The first cluster of the directory `path` names, from the root of the volume.
#[verifier::spinoff_prover]
#[verifier::rlimit(40)]
pub fn walk_dir<D: BlockDevice>(fat: &Fat32, dev: &mut D, path: &[u8]) -> (r: Result<u32, &'static str>)
    requires
        fat.wf(),
    ensures
        disk_of(final(dev)) == disk_of(old(dev)),
        r is Ok ==> fat.walk(disk_of(old(dev)), fat.root_cluster, parts_from(path@, 0)) == Some(
            r->Ok_0,
        ),
        healthy(old(dev), fat.bytes_per_sector as int) ==> healthy(final(dev), fat.bytes_per_sector as int),
        healthy(old(dev), fat.bytes_per_sector as int) && fat.walk(disk_of(old(dev)), fat.root_cluster, parts_from(path@, 0)) is Some
            ==> r is Ok,
{
    let ghost disk = disk_of(dev);
    let mut cluster = fat.root_cluster;
    let mut pos: usize = 0;
    let n = path.len();
    loop
        invariant
            fat.wf(),
            disk_of(dev) == disk,
            disk == disk_of(old(dev)),
            n == path@.len(),
            pos <= n,
            fat.walk(disk, fat.root_cluster, parts_from(path@, 0)) == fat.walk(
                disk,
                cluster,
                parts_from(path@, pos as int),
            ),
            healthy(old(dev), fat.bytes_per_sector as int) ==> healthy(dev, fat.bytes_per_sector as int),
        decreases n - pos,
    {
        let j = find_byte(path, pos, n, 47);
        proof {
            let t = path@.subrange(pos as int, n as int);
            lemma_first_index_range(t, 47);
            lemma_first_index(t, 47, j - pos);
            assert(next_slash(path@, pos as int) == j);
        }
        let ghost rest = if j < n { parts_from(path@, j + 1) } else { Seq::<Seq<u8>>::empty() };
        let ghost before = cluster;
        if j > pos {
            let part = slice_of(path, pos, j);
            let entries = fat.list_dir(dev, cluster)?;
            match find_named(&entries, part.as_slice(), 1) {
                Some(i) => {
                    proof {
                        lemma_first_named_range(entries@.map_values(|e: DirEntry| e@), part@, 1);
                        assert(parts_from(path@, pos as int) == seq![part@] + rest);
                        assert((seq![part@] + rest).subrange(1, (seq![part@] + rest).len() as int) =~= rest);
                    }
                    cluster = entries[i].first_cluster;
                    assert(fat.walk(disk, before, parts_from(path@, pos as int)) == fat.walk(disk, cluster, rest));
                },
                None => {
                    proof {
                        assert(parts_from(path@, pos as int) == seq![part@] + rest);
                        assert((seq![part@] + rest)[0] == part@);
                        assert(fat.walk(disk, before, parts_from(path@, pos as int)) is None);
                    }
                    return Err("klasor yok");
                },
            }
        }
        assert(fat.walk(disk, before, parts_from(path@, pos as int)) == fat.walk(disk, cluster, rest));
        if j >= n {
            assert(fat.walk(disk, cluster, Seq::<Seq<u8>>::empty()) == Some(cluster));
            return Ok(cluster);
        }
        pos = j + 1;
    }
}

} // verus!

verus! {

/// A record that can take a new entry: never used (0) or deleted (0xE5).
pub open spec fn slot_free(rec: Seq<u8>) -> bool {
    rec[0] == 0 || rec[0] == 0xE5
}

/// A live short-name record whose 8.3 name is `sn`.
pub open spec fn slot_named(rec: Seq<u8>, sn: Seq<u8>) -> bool {
    rec[0] != 0 && rec[0] != 0xE5 && rec[11] != 0x0F && rec.subrange(0, 11) == sn
}

/// The 32-byte record at `off` of a block.
pub open spec fn record_at(blk: Seq<u8>, off: int) -> Seq<u8> {
    blk.subrange(off, off + 32)
}

/// A new directory record: the 8.3 name, the attribute byte, the first cluster split in its
/// high (bytes 20..22) and low (bytes 26..28) halves; every other byte zero.
pub open spec fn new_record(sn: Seq<u8>, attr: u8, first: u32) -> Seq<u8> {
    let r1 = splice(Seq::new(32, |i: int| 0u8), 0, sn).update(11, attr);
    let r2 = splice(r1, 20, le16_bytes((first / 0x1_0000) as u16));
    splice(r2, 26, le16_bytes((first % 0x1_0000) as u16))
}

impl Fat32 {
    /// The clusters a directory search visits from `c`: `c` and the clusters that follow it
    /// in the FAT, at most `n` of them, stopping at the end of the chain.
    pub open spec fn dir_walk(&self, disk: Disk, c: u32, n: nat) -> Seq<u32>
        decreases n,
    {
        if n == 0 || is_chain_end(c) {
            Seq::empty()
        } else {
            seq![c] + self.dir_walk(disk, self.fat_entry(disk, c), (n - 1) as nat)
        }
    }

    /// Block `s` of the `j`-th cluster a search of the directory at `parent` visits when it
    /// follows at most `span` clusters.
    pub open spec fn walk_block(&self, disk: Disk, parent: u32, span: nat, j: int, s: int) -> int {
        self.lba_of(self.dir_walk(disk, parent, span)[j]) + s
    }

    /// Whether the record at `off` of block `lba` is one that a search of the directory at
    /// `parent` reaches: the block belongs to one of the first `span` clusters of the
    /// directory.
    pub open spec fn dir_slot_in(&self, disk: Disk, parent: u32, span: nat, lba: u64, off: int) -> bool {
        &&& 0 <= off
        &&& off % 32 == 0
        &&& off + 32 <= self.bytes_per_sector
        &&& disk(lba).len() == self.bytes_per_sector
        &&& exists|j: int, s: int|
            0 <= j < self.dir_walk(disk, parent, span).len() && 0 <= s < self.sectors_per_cluster
                && #[trigger] self.walk_block(disk, parent, span, j, s) == lba
    }

    /// A record that a search of the directory at `parent` along its first 65 clusters
    /// reaches.
    pub open spec fn dir_slot(&self, disk: Disk, parent: u32, lba: u64, off: int) -> bool {
        self.dir_slot_in(disk, parent, 65, lba, off)
    }
}

impl Fat32 {
    /// Whether `after` is `before` with `rec` written over a free record that a search of the
    /// directory at `parent` reaches.
    pub open spec fn put_new(&self, before: Disk, after: Disk, parent: u32, rec: Seq<u8>) -> bool {
        exists|lba: u64, off: int|
            #[trigger] self.dir_slot(before, parent, lba, off) && slot_free(record_at(before(lba), off))
                && after == disk_put(before, lba, splice(before(lba), off, rec))
    }

    /// Whether `after` is `before` with a live record named `sn`, that a search of the
    /// directory at `parent` reaches, replaced by `f` of it.
    pub open spec fn patched(&self, before: Disk, after: Disk, parent: u32, sn: Seq<u8>, f: spec_fn(Seq<u8>) -> Seq<u8>) -> bool {
        exists|lba: u64, off: int|
            #[trigger] self.dir_slot(before, parent, lba, off) && slot_named(record_at(before(lba), off), sn)
                && after == disk_put(before, lba, splice(before(lba), off, f(record_at(before(lba), off))))
    }
}

impl Fat32 {
    /// Whether `after` is `before` with a live record named `sn`, that a search of the
    /// directory at `parent` reaches and that holds `raw`, marked deleted.
    pub open spec fn taken(&self, before: Disk, after: Disk, parent: u32, sn: Seq<u8>, raw: Seq<u8>) -> bool {
        exists|lba: u64, off: int|
            #[trigger] self.dir_slot(before, parent, lba, off) && slot_named(record_at(before(lba), off), sn)
                && raw == record_at(before(lba), off) && after == disk_put(
                before,
                lba,
                splice(before(lba), off, patched_entry(record_at(before(lba), off), None)),
            )
    }
}

/// A record with its size and first cluster set.
pub open spec fn meta_fn(size: u32, first: u32) -> spec_fn(Seq<u8>) -> Seq<u8> {
    |rec: Seq<u8>| patch_record(rec, 0, size, first)
}

/// A record marked deleted (`None`) or renamed.
pub open spec fn entry_fn(new: Option<Seq<u8>>) -> spec_fn(Seq<u8>) -> Seq<u8> {
    |rec: Seq<u8>| patched_entry(rec, new)
}

impl Fat32 {
    /// The record at `o` of block `s` of the `j`-th cluster a search of the directory at
    /// `parent` visits (along at most `span` clusters).
    pub open spec fn rec_at(&self, disk: Disk, parent: u32, span: nat, j: int, s: int, o: int) -> Seq<u8> {
        record_at(disk(self.walk_block(disk, parent, span, j, s) as u64), o)
    }

    /// Whether `(j, s, o)` names a record of a block of a cluster: `s` a block of the
    /// cluster, `o` the offset of a whole record in it.
    pub open spec fn rec_pos(&self, j: int, s: int, o: int) -> bool {
        0 <= j && 0 <= s < self.sectors_per_cluster && 0 <= o && o % 32 == 0 && o + 32 <= self.bytes_per_sector
    }

    /// Whether a search for a free record (`free`) or for the live record named `sn` goes
    /// on past the record at `(j, s, o)`: a free search passes a record in use, a name search
    /// one that is neither the end of the directory nor the record it looks for.
    pub open spec fn passes(&self, disk: Disk, parent: u32, span: nat, free: bool, sn: Seq<u8>, j: int, s: int, o: int) -> bool {
        let rec = self.rec_at(disk, parent, span, j, s, o);
        if free {
            !slot_free(rec)
        } else {
            rec[0] != 0 && !slot_named(rec, sn)
        }
    }

    /// Whether no record a search of the directory at `parent` along at most `span`
    /// clusters reaches is free.
    pub open spec fn dir_full(&self, disk: Disk, parent: u32, span: nat) -> bool {
        forall|lba: u64, off: int| #[trigger] self.dir_slot_in(disk, parent, span, lba, off)
            ==> !slot_free(record_at(disk(lba), off))
    }

    /// Whether a search for the live record named `sn` in the directory at `parent`, along
    /// at most `span` clusters and up to the first end-of-directory record, finds none.
    pub open spec fn name_absent(&self, disk: Disk, parent: u32, span: nat, sn: Seq<u8>) -> bool {
        forall|j: int, s: int, o: int|
            j < self.dir_walk(disk, parent, span).len() && self.rec_pos(j, s, o)
                && slot_named(#[trigger] self.rec_at(disk, parent, span, j, s, o), sn)
                ==> exists|j2: int, s2: int, o2: int|
                self.rec_pos(j2, s2, o2) && pos_before(j2, s2, o2, j, s, o)
                    && #[trigger] self.rec_at(disk, parent, span, j2, s2, o2)[0] == 0
    }
}

impl Fat32 {
    /// Whether the record at `off` of block `lba` is where a search of the directory at
    /// `parent` along at most `span` clusters stops: the block is one of the search's, and the
    /// search passes every record before it.
    pub open spec fn first_hit(&self, disk: Disk, parent: u32, span: nat, free: bool, sn: Seq<u8>, lba: u64, off: int) -> bool {
        exists|j: int, s: int|
            0 <= j < self.dir_walk(disk, parent, span).len() && 0 <= s < self.sectors_per_cluster
                && #[trigger] self.walk_block(disk, parent, span, j, s) == lba && forall|j2: int, s2: int, o2: int|
                self.rec_pos(j2, s2, o2) && pos_before(j2, s2, o2, j, s, off) ==> #[trigger] self.passes(
                    disk,
                    parent,
                    span,
                    free,
                    sn,
                    j2,
                    s2,
                    o2,
                )
    }

    /// Whether `after` is `before` with `rec` written over the first free record a search of
    /// the directory at `parent` reaches.
    pub open spec fn put_first(&self, before: Disk, after: Disk, parent: u32, rec: Seq<u8>) -> bool {
        exists|lba: u64, off: int|
            #[trigger] self.dir_slot(before, parent, lba, off) && self.first_hit(before, parent, 65, true, Seq::empty(), lba, off)
                && slot_free(record_at(before(lba), off)) && after == disk_put(before, lba, splice(before(lba), off, rec))
    }
}

/// Whether `(j2, s2, o2)` comes before `(j, s, o)` in the order of a directory search.
pub open spec fn pos_before(j2: int, s2: int, o2: int, j: int, s: int, o: int) -> bool {
    j2 < j || (j2 == j && (s2 < s || (s2 == s && o2 < o)))
}

/// A directory search follows at most `n` clusters.
pub proof fn lemma_dir_walk_len(fat: &Fat32, disk: Disk, c: u32, n: nat)
    ensures
        fat.dir_walk(disk, c, n).len() <= n,
    decreases n,
{
    if n > 0 && !is_chain_end(c) {
        lemma_dir_walk_len(fat, disk, fat.fat_entry(disk, c), (n - 1) as nat);
    }
}

/// A search that passed every record before `(g, s, off)` and stops there, at the end of
/// the directory's clusters or at a record that ends it, finds nothing.
proof fn lemma_search_ends(fat: &Fat32, disk: Disk, parent: u32, span: nat, free: bool, sn: Seq<u8>, g: int, s: int, off: int)
    requires
        forall|j: int, s2: int, o: int|
            fat.rec_pos(j, s2, o) && pos_before(j, s2, o, g, s, off)
                ==> #[trigger] fat.passes(disk, parent, span, free, sn, j, s2, o),
        fat.dir_walk(disk, parent, span).len() <= g || (!free && fat.rec_pos(g, s, off)
            && g < fat.dir_walk(disk, parent, span).len()
            && fat.rec_at(disk, parent, span, g, s, off)[0] == 0),
    ensures
        free ==> fat.dir_full(disk, parent, span),
        !free ==> fat.name_absent(disk, parent, span, sn),
{
    if free {
        assert forall|lba: u64, o: int| #[trigger] fat.dir_slot_in(disk, parent, span, lba, o)
            implies !slot_free(record_at(disk(lba), o)) by {
            let (j, s2) = choose|j: int, s2: int|
                0 <= j < fat.dir_walk(disk, parent, span).len() && 0 <= s2 < fat.sectors_per_cluster
                    && #[trigger] fat.walk_block(disk, parent, span, j, s2) == lba;
            assert(fat.passes(disk, parent, span, free, sn, j, s2, o));
        }
    } else {
        assert forall|j: int, s2: int, o: int|
            j < fat.dir_walk(disk, parent, span).len() && fat.rec_pos(j, s2, o)
                && slot_named(#[trigger] fat.rec_at(disk, parent, span, j, s2, o), sn)
            implies exists|j2: int, s3: int, o2: int|
                fat.rec_pos(j2, s3, o2) && pos_before(j2, s3, o2, j, s2, o)
                    && #[trigger] fat.rec_at(disk, parent, span, j2, s3, o2)[0] == 0 by {
            if pos_before(j, s2, o, g, s, off) {
                assert(fat.passes(disk, parent, span, free, sn, j, s2, o));
            } else if j == g && s2 == s && o == off {
            } else {
                assert(fat.rec_at(disk, parent, span, g, s, off)[0] == 0);
            }
        }
    }
}

/// Whether `blk[off..off + 11]` equals `sn`.
fn name_at(blk: &[u8], off: usize, sn: &[u8; 11]) -> (r: bool)
    requires
        off + 11 <= blk@.len(),
    ensures
        r == (blk@.subrange(off as int, off + 11) == sn@),
{
    let _n = blk.len();
    let part = slice_of(blk, off, off + 11);
    bytes_eq(part.as_slice(), sn.as_slice())
}

/// Searches the directory at `parent` for a free record (`free`) or for the live
/// short-name record named `sn`, block by block along its first `span` clusters; a name
/// search gives up at the end-of-directory record. Returns the block, the record's offset
/// and the block's bytes; `Ok(None)` when the search ends without one, `Err` when a block
/// or a FAT entry cannot be read.
pub(crate) fn find_record<D: BlockDevice>(fat: &Fat32, dev: &mut D, parent: u32, sn: &[u8; 11], free: bool, span: u32) -> (r: Result<Option<(u64, usize, Vec<u8>)>, ()>)
    requires
        fat.wf(),
        1 <= span <= 1000,
    ensures
        disk_of(final(dev)) == disk_of(old(dev)),
        r matches Ok(Some((lba, off, blk))) ==> {
            &&& blk@ == disk_of(old(dev))(lba)
            &&& fat.dir_slot_in(disk_of(old(dev)), parent, span as nat, lba, off as int)
            &&& free ==> slot_free(record_at(blk@, off as int))
            &&& !free ==> slot_named(record_at(blk@, off as int), sn@)
            &&& fat.first_hit(disk_of(old(dev)), parent, span as nat, free, sn@, lba, off as int)
        },
        free && r == Ok::<Option<(u64, usize, Vec<u8>)>, ()>(None) ==> fat.dir_full(disk_of(old(dev)), parent, span as nat),
        !free && r == Ok::<Option<(u64, usize, Vec<u8>)>, ()>(None) ==> fat.name_absent(disk_of(old(dev)), parent, span as nat, sn@),
        healthy(old(dev), fat.bytes_per_sector as int) ==> r is Ok && healthy(final(dev), fat.bytes_per_sector as int),
{
    let ghost disk = disk_of(dev);
    let ghost walk = fat.dir_walk(disk, parent, span as nat);
    let bps = fat.bytes_per_sector as usize;
    let mut c = parent;
    let mut guard: u32 = 0;
    assert(walk.subrange(0, walk.len() as int) =~= walk);
    loop
        invariant
            fat.wf(),
            disk_of(dev) == disk,
            disk == disk_of(old(dev)),
            bps == fat.bytes_per_sector,
            walk == fat.dir_walk(disk, parent, span as nat),
            guard < span,
            span <= 1000,
            guard <= walk.len(),
            fat.dir_walk(disk, c, (span - guard) as nat) == walk.subrange(guard as int, walk.len() as int),
            healthy(old(dev), fat.bytes_per_sector as int) ==> healthy(dev, fat.bytes_per_sector as int),
            forall|j: int, s2: int, o: int|
                fat.rec_pos(j, s2, o) && pos_before(j, s2, o, guard as int, 0, 0)
                    ==> #[trigger] fat.passes(disk, parent, span as nat, free, sn@, j, s2, o),
        decreases span - 1 - guard,
    {
        if c < 2 || c >= 0x0FFF_FFF8 {
            proof {
                lemma_search_ends(fat, disk, parent, span as nat, free, sn@, guard as int, 0, 0);
            }
            return Ok(None);
        }
        assert(fat.dir_walk(disk, c, (span - guard) as nat) == seq![c] + fat.dir_walk(
            disk,
            fat.fat_entry(disk, c),
            (span - 1 - guard) as nat,
        ));
        assert(walk.len() - guard >= 1);
        assert(walk.subrange(guard as int, walk.len() as int)[0] == walk[guard as int]);
        assert(walk[guard as int] == c);
        let lba = fat.cluster_to_lba(c);
        let mut s: u32 = 0;
        while s < fat.sectors_per_cluster
            invariant
                fat.wf(),
                disk_of(dev) == disk,
                disk == disk_of(old(dev)),
                bps == fat.bytes_per_sector,
                walk == fat.dir_walk(disk, parent, span as nat),
                guard < walk.len(),
                walk[guard as int] == c,
                lba == fat.lba_of(c),
                lba <= 0x1_0000_0000 * 0x101,
                s <= fat.sectors_per_cluster,
                healthy(old(dev), fat.bytes_per_sector as int) ==> healthy(dev, fat.bytes_per_sector as int),
                forall|j: int, s2: int, o: int|
                    fat.rec_pos(j, s2, o) && pos_before(j, s2, o, guard as int, s as int, 0)
                        ==> #[trigger] fat.passes(disk, parent, span as nat, free, sn@, j, s2, o),
            decreases fat.sectors_per_cluster - s,
        {
            let mut blk = zeroes(bps);
            if read_sector(dev, lba + s as u64, &mut blk).is_err() {
                return Err(());
            }
            assert(fat.walk_block(disk, parent, span as nat, guard as int, s as int) == lba + s);
            let mut off: usize = 0;
            while off + 32 <= bps
                invariant
                    fat.wf(),
                    disk_of(dev) == disk,
                    disk == disk_of(old(dev)),
                    bps == fat.bytes_per_sector,
                    bps <= 0xFFFF,
                    walk == fat.dir_walk(disk, parent, span as nat),
                    guard < walk.len(),
                    walk[guard as int] == c,
                    lba == fat.lba_of(c),
                    lba <= 0x1_0000_0000 * 0x101,
                    s < fat.sectors_per_cluster,
                    fat.walk_block(disk, parent, span as nat, guard as int, s as int) == lba + s,
                    blk@ == disk((lba + s) as u64),
                    blk@.len() == bps,
                    off % 32 == 0,
                    off <= bps,
                    healthy(old(dev), fat.bytes_per_sector as int) ==> healthy(dev, fat.bytes_per_sector as int),
                    forall|j: int, s2: int, o: int|
                        fat.rec_pos(j, s2, o) && pos_before(j, s2, o, guard as int, s as int, off as int)
                            ==> #[trigger] fat.passes(disk, parent, span as nat, free, sn@, j, s2, o),
                decreases bps - off,
            {
                let b0 = blk[off];
                assert(fat.rec_at(disk, parent, span as nat, guard as int, s as int, off as int) == record_at(blk@, off as int));
                assert(record_at(blk@, off as int)[0] == b0);
                if free {
                    if b0 == 0 || b0 == 0xE5 {
                        assert(fat.first_hit(disk, parent, span as nat, free, sn@, (lba + s) as u64, off as int));
                        return Ok(Some((lba + s as u64, off, blk)));
                    }
                } else {
                    if b0 == 0 {
                        proof {
                            lemma_search_ends(fat, disk, parent, span as nat, free, sn@, guard as int, s as int, off as int);
                        }
                        return Ok(None);
                    }
                    assert(record_at(blk@, off as int).subrange(0, 11) =~= blk@.subrange(off as int, off + 11));
                    assert(record_at(blk@, off as int)[11] == blk@[off + 11]);
                    if b0 != 0xE5 && blk[off + 11] != 0x0F && name_at(blk.as_slice(), off, sn) {
                        assert(fat.first_hit(disk, parent, span as nat, free, sn@, (lba + s) as u64, off as int));
                        return Ok(Some((lba + s as u64, off, blk)));
                    }
                }
                assert(fat.passes(disk, parent, span as nat, free, sn@, guard as int, s as int, off as int));
                proof {
                    assert forall|j: int, s2: int, o: int|
                        fat.rec_pos(j, s2, o) && pos_before(j, s2, o, guard as int, s as int, off + 32)
                            implies #[trigger] fat.passes(disk, parent, span as nat, free, sn@, j, s2, o) by {
                        if j == guard && s2 == s && o >= off {
                            assert(o == off);
                        }
                    }
                }
                off = off + 32;
            }
            proof {
                assert forall|j: int, s2: int, o: int|
                    fat.rec_pos(j, s2, o) && pos_before(j, s2, o, guard as int, s + 1, 0)
                        implies #[trigger] fat.passes(disk, parent, span as nat, free, sn@, j, s2, o) by {
                    if j == guard && s2 == s {
                        assert(pos_before(j, s2, o, guard as int, s as int, off as int));
                    }
                }
            }
            s = s + 1;
        }
        let next = match fat.next_cluster(dev, c) {
            Ok(n) => n,
            Err(_) => return Err(()),
        };
        proof {
            assert(fat.dir_walk(disk, c, (span - guard) as nat) == seq![c] + fat.dir_walk(
                disk,
                next,
                (span - 1 - guard) as nat,
            ));
            assert(walk.subrange(guard + 1, walk.len() as int) =~= walk.subrange(
                guard as int,
                walk.len() as int,
            ).subrange(1, walk.len() - guard));
            assert forall|j: int, s2: int, o: int|
                fat.rec_pos(j, s2, o) && pos_before(j, s2, o, guard + 1, 0, 0)
                    implies #[trigger] fat.passes(disk, parent, span as nat, free, sn@, j, s2, o) by {
                if j == guard {
                    assert(pos_before(j, s2, o, guard as int, s as int, 0));
                }
            }
        }
        c = next;
        guard = guard + 1;
        if guard >= span {
            proof {
                lemma_dir_walk_len(fat, disk, parent, span as nat);
                lemma_search_ends(fat, disk, parent, span as nat, free, sn@, guard as int, 0, 0);
            }
            return Ok(None);
        }
    }
}

/// Writes `blk` with `rec` put at `off` back to block `lba`; 0 on success, 1 on an error.
fn put_record<D: BlockDevice>(dev: &mut D, lba: u64, blk: &mut Vec<u8>, off: usize, rec: &[u8]) -> (r: u64)
    requires
        off + rec@.len() <= old(blk)@.len(),
    ensures
        r == 0 || r == 1,
        final(blk)@ == splice(old(blk)@, off as int, rec@),
        r == 0 ==> disk_of(final(dev)) == disk_put(disk_of(old(dev)), lba, splice(old(blk)@, off as int, rec@)),
        old(dev).serves(lba) ==> r == 0,
        forall|n: int| healthy(old(dev), n) && old(blk)@.len() == n ==> #[trigger] healthy(final(dev), n),
{
    put_bytes(blk, off, rec);
    assert(blk@.len() == old(blk)@.len());
    if write_sector(dev, lba, blk.as_slice()).is_err() {
        return 1;
    }
    0
}

/// Adds an entry named `sn` with attribute `attr` and first cluster `first_cluster` in the
/// first free record of the directory at `parent`. 0 on success, 1 otherwise.
fn insert_entry<D: BlockDevice>(fat: &Fat32, dev: &mut D, parent: u32, sn: [u8; 11], attr: u8, first_cluster: u32) -> (r: u64)
    requires
        fat.wf(),
    ensures
        r == 0 || r == 1,
        r == 0 ==> fat.put_new(disk_of(old(dev)), disk_of(final(dev)), parent, new_record(sn@, attr, first_cluster)),
        r == 0 ==> fat.put_first(disk_of(old(dev)), disk_of(final(dev)), parent, new_record(sn@, attr, first_cluster)),
        healthy(old(dev), fat.bytes_per_sector as int) ==> healthy(final(dev), fat.bytes_per_sector as int),
        healthy(old(dev), fat.bytes_per_sector as int) && !fat.dir_full(disk_of(old(dev)), parent, 65) ==> r == 0,
{
    let mut rec = zeroes(32);
    put_bytes(&mut rec, 0, sn.as_slice());
    rec.set(11, attr);
    put_le16(&mut rec, 20, (first_cluster >> 16u32) as u16);
    put_le16(&mut rec, 26, (first_cluster & 0xFFFF) as u16);
    assert((first_cluster >> 16u32) as u16 == (first_cluster / 0x1_0000) as u16) by (bit_vector);
    assert((first_cluster & 0xFFFF) as u16 == (first_cluster % 0x1_0000) as u16) by (bit_vector);
    assert(rec@ =~= new_record(sn@, attr, first_cluster));
    match find_record(fat, dev, parent, &sn, true, 65) {
        Ok(Some((lba, off, mut blk))) => {
            let ghost blen = blk@.len();
            let r = put_record(dev, lba, &mut blk, off, rec.as_slice());
            assert(r == 0 ==> fat.dir_slot(disk_of(old(dev)), parent, lba, off as int));
            assert(healthy(old(dev), fat.bytes_per_sector as int) ==> blen == fat.bytes_per_sector);
            proof {
                let d0 = disk_of(old(dev));
                let (j, s) = choose|j: int, s: int|
                    0 <= j < fat.dir_walk(d0, parent, 65).len() && 0 <= s < fat.sectors_per_cluster
                        && #[trigger] fat.walk_block(d0, parent, 65, j, s) == lba && forall|j2: int, s2: int, o2: int|
                        fat.rec_pos(j2, s2, o2) && pos_before(j2, s2, o2, j, s, off as int) ==> #[trigger] fat.passes(
                            d0,
                            parent,
                            65,
                            true,
                            sn@,
                            j2,
                            s2,
                            o2,
                        );
                assert forall|j2: int, s2: int, o2: int|
                    fat.rec_pos(j2, s2, o2) && pos_before(j2, s2, o2, j, s, off as int) implies #[trigger] fat.passes(
                        d0,
                        parent,
                        65,
                        true,
                        Seq::empty(),
                        j2,
                        s2,
                        o2,
                    ) by {
                    assert(fat.passes(d0, parent, 65, true, sn@, j2, s2, o2));
                }
                assert(fat.first_hit(d0, parent, 65, true, Seq::empty(), lba, off as int));
            }
            r
        },
        _ => 1,
    }
}

/// Sets the size and first cluster of the live entry named `sn` in the directory at
/// `parent`. 0 on success, 1 otherwise.
fn patch_meta<D: BlockDevice>(fat: &Fat32, dev: &mut D, parent: u32, sn: [u8; 11], size: u32, first: u32) -> (r: u64)
    requires
        fat.wf(),
    ensures
        r == 0 || r == 1,
        r == 0 ==> fat.patched(disk_of(old(dev)), disk_of(final(dev)), parent, sn@, meta_fn(size, first)),
        healthy(old(dev), fat.bytes_per_sector as int) ==> healthy(final(dev), fat.bytes_per_sector as int),
        healthy(old(dev), fat.bytes_per_sector as int) && !fat.name_absent(disk_of(old(dev)), parent, 65, sn@) ==> r == 0,
{
    match find_record(fat, dev, parent, &sn, false, 65) {
        Ok(Some((lba, off, mut blk))) => {
            let ghost b0 = blk@;
            put_le32(&mut blk, off + 28, size);
            put_le16(&mut blk, off + 20, (first >> 16u32) as u16);
            put_le16(&mut blk, off + 26, (first & 0xFFFF) as u16);
            assert((first >> 16u32) as u16 == (first / 0x1_0000) as u16) by (bit_vector);
            assert((first & 0xFFFF) as u16 == (first % 0x1_0000) as u16) by (bit_vector);
            assert(blk@ =~= splice(b0, off as int, patch_record(record_at(b0, off as int), 0, size, first)));
            if write_sector(dev, lba, blk.as_slice()).is_err() {
                return 1;
            }
            assert(fat.dir_slot(disk_of(old(dev)), parent, lba, off as int));
            0
        },
        _ => 1,
    }
}

/// The record named `sn` marked deleted (`new` is `None`) or renamed to `new`.
pub open spec fn patched_entry(rec: Seq<u8>, new: Option<Seq<u8>>) -> Seq<u8> {
    match new {
        None => rec.update(0, 0xE5),
        Some(ns) => splice(rec, 0, ns),
    }
}

/// Deletes (`new` is `None`) or renames the live entry named `sn` in the directory at
/// `parent`. 0 on success, 1 otherwise.
fn patch_entry<D: BlockDevice>(fat: &Fat32, dev: &mut D, parent: u32, sn: [u8; 11], new: Option<[u8; 11]>) -> (r: u64)
    requires
        fat.wf(),
    ensures
        r == 0 || r == 1,
        r == 0 ==> fat.patched(
            disk_of(old(dev)),
            disk_of(final(dev)),
            parent,
            sn@,
            entry_fn(
                match new {
                    Some(ns) => Some(ns@),
                    None => None,
                },
            ),
        ),
        healthy(old(dev), fat.bytes_per_sector as int) ==> healthy(final(dev), fat.bytes_per_sector as int),
        healthy(old(dev), fat.bytes_per_sector as int) && !fat.name_absent(disk_of(old(dev)), parent, 65, sn@) ==> r == 0,
{
    match find_record(fat, dev, parent, &sn, false, 65) {
        Ok(Some((lba, off, mut blk))) => {
            let ghost b0 = blk@;
            let ghost nv = match new {
                Some(ns) => Some(ns@),
                None => None::<Seq<u8>>,
            };
            match new {
                None => {
                    blk.set(off, 0xE5);
                },
                Some(ns) => {
                    put_bytes(&mut blk, off, ns.as_slice());
                },
            }
            assert(blk@ =~= splice(b0, off as int, patched_entry(record_at(b0, off as int), nv)));
            if write_sector(dev, lba, blk.as_slice()).is_err() {
                return 1;
            }
            assert(fat.dir_slot(disk_of(old(dev)), parent, lba, off as int));
            0
        },
        _ => 1,
    }
}

/// Takes the live entry named `sn` out of the directory at `parent`: returns its record and
/// marks it deleted.
fn take_entry_raw<D: BlockDevice>(fat: &Fat32, dev: &mut D, parent: u32, sn: [u8; 11]) -> (r: Option<[u8; 32]>)
    requires
        fat.wf(),
    ensures
        r matches Some(raw) ==> fat.taken(disk_of(old(dev)), disk_of(final(dev)), parent, sn@, raw@),
        healthy(old(dev), fat.bytes_per_sector as int) ==> healthy(final(dev), fat.bytes_per_sector as int),
        healthy(old(dev), fat.bytes_per_sector as int) && !fat.name_absent(disk_of(old(dev)), parent, 65, sn@) ==> r is Some,
{
    match find_record(fat, dev, parent, &sn, false, 65) {
        Ok(Some((lba, off, mut blk))) => {
            let ghost b0 = blk@;
            let mut raw = [0u8; 32];
            let mut i: usize = 0;
            let _n = blk.len();
            while i < 32
                invariant
                    blk@ == b0,
                    _n == b0.len(),
                    off + 32 <= b0.len(),
                    i <= 32,
                    forall|k: int| 0 <= k < i ==> raw@[k] == b0[off + k],
                decreases 32 - i,
            {
                raw[i] = blk[off + i];
                i = i + 1;
            }
            assert(raw@ =~= record_at(b0, off as int));
            blk.set(off, 0xE5);
            assert(blk@ =~= splice(b0, off as int, patched_entry(record_at(b0, off as int), None)));
            if write_sector(dev, lba, blk.as_slice()).is_err() {
                return None;
            }
            assert(fat.dir_slot(disk_of(old(dev)), parent, lba, off as int));
            Some(raw)
        },
        _ => None,
    }
}

/// Puts the record `raw` in the first free record of the directory at `parent`. 0 on
/// success, 1 otherwise.
fn insert_raw<D: BlockDevice>(fat: &Fat32, dev: &mut D, parent: u32, raw: [u8; 32]) -> (r: u64)
    requires
        fat.wf(),
    ensures
        r == 0 || r == 1,
        r == 0 ==> fat.put_new(disk_of(old(dev)), disk_of(final(dev)), parent, raw@),
        healthy(old(dev), fat.bytes_per_sector as int) ==> healthy(final(dev), fat.bytes_per_sector as int),
        healthy(old(dev), fat.bytes_per_sector as int) && !fat.dir_full(disk_of(old(dev)), parent, 65) ==> r == 0,
{
    let none = [0u8; 11];
    match find_record(fat, dev, parent, &none, true, 65) {
        Ok(Some((lba, off, mut blk))) => {
            let ghost blen = blk@.len();
            let r = put_record(dev, lba, &mut blk, off, raw.as_slice());
            assert(r == 0 ==> fat.dir_slot(disk_of(old(dev)), parent, lba, off as int));
            assert(healthy(old(dev), fat.bytes_per_sector as int) ==> blen == fat.bytes_per_sector);
            r
        },
        _ => 1,
    }
}

} // verus!

verus! {

/// Number of FAT entries the free-cluster search covers: the entries of one FAT (a
/// saturating product), at most 0x0FFF_FFF0 and at least four.
pub open spec fn search_total(fat: Fat32) -> int {
    let prod = fat.fat_size_sectors as int * (fat.bytes_per_sector as int / 4);
    let p = if prod > u32::MAX { u32::MAX as int } else { prod };
    let t = if p < 0x0FFF_FFF0 { p } else { 0x0FFF_FFF0 };
    if t < 4 { 4 } else { t }
}

/// Where the search starts: the hint, kept between 3 and the last entry.
pub open spec fn search_start(hint: u32, total: int) -> int {
    if hint < 3 {
        3
    } else if hint > total - 1 {
        total - 1
    } else {
        hint as int
    }
}

/// Whether `c` is the first free cluster of the search that starts at `h`: first in
/// `h..total`, else first in `3..h`.
pub open spec fn first_free_from(fat: Fat32, disk: Disk, h: int, total: int, c: u32) -> bool {
    &&& fat.fat_entry(disk, c) == 0
    &&& {
        ||| (h <= c < total && forall|j: u32| h <= j < c ==> fat.fat_entry(disk, j) != 0)
        ||| (3 <= c < h && (forall|j: u32| h <= j < total ==> fat.fat_entry(disk, j) != 0)
            && (forall|j: u32| 3 <= j < c ==> fat.fat_entry(disk, j) != 0))
    }
}

/// The first cluster in `lo..hi` whose FAT entry is zero, if any.
fn scan_free<D: BlockDevice>(fat: &Fat32, dev: &mut D, lo: u32, hi: u32) -> (r: Result<Option<u32>, &'static str>)
    requires
        fat.wf(),
        hi <= 0x0FFF_FFF0,
    ensures
        disk_of(final(dev)) == disk_of(old(dev)),
        r matches Ok(Some(c)) ==> lo <= c < hi && fat.fat_entry(disk_of(old(dev)), c) == 0 && forall|j: u32|
            lo <= j < c ==> fat.fat_entry(disk_of(old(dev)), j) != 0,
        r matches Ok(None) ==> forall|j: u32| lo <= j < hi ==> fat.fat_entry(disk_of(old(dev)), j) != 0,
        healthy(old(dev), fat.bytes_per_sector as int) ==> r is Ok && healthy(final(dev), fat.bytes_per_sector as int),
{
    let ghost disk = disk_of(dev);
    let mut c = lo;
    while c < hi
        invariant
            fat.wf(),
            healthy(old(dev), fat.bytes_per_sector as int) ==> healthy(dev, fat.bytes_per_sector as int),
            hi <= 0x0FFF_FFF0,
            disk_of(dev) == disk,
            disk == disk_of(old(dev)),
            lo <= c || c >= hi,
            forall|j: u32| lo <= j < c ==> fat.fat_entry(disk, j) != 0,
        decreases hi - c,
    {
        let v = match fat.next_cluster(dev, c) {
            Ok(v) => v,
            Err(_) => return Err("FAT okunamadi"),
        };
        if v == 0 {
            return Ok(Some(c));
        }
        c = c + 1;
    }
    Ok(None)
}

/// Takes a free cluster: the search starts at the hint and wraps around to cluster 3; the
/// cluster found is marked as the end of a chain and zeroed, and the hint moves past it.
/// Volumes with blocks smaller than 512 bytes are refused.
fn alloc_cluster<D: BlockDevice>(fat: &Fat32, dev: &mut D, hint: &mut u32) -> (r: Result<u32, &'static str>)
    requires
        fat.wf(),
    ensures
        r is Err ==> *final(hint) == *old(hint),
        fat.bytes_per_sector < 512 ==> r is Err && disk_of(final(dev)) == disk_of(old(dev)),
        r matches Ok(c) ==> {
            let disk = disk_of(old(dev));
            let total = search_total(*fat);
            &&& first_free_from(*fat, disk, search_start(*old(hint), total), total, c)
            &&& disk_of(final(dev)) == fat.cluster_zeroed(fat.fat_put(disk, c, 0x0FFF_FFFF), c)
            &&& disk(fat.fat_lba(c)).len() == fat.bytes_per_sector
            &&& fat.bytes_per_sector >= 512
            &&& *final(hint) == c + 1
        },
        healthy(old(dev), fat.bytes_per_sector as int) ==> healthy(final(dev), fat.bytes_per_sector as int),
        healthy(old(dev), fat.bytes_per_sector as int) && fat.bytes_per_sector >= 512 && (exists|j: u32|
            3 <= j < search_total(*fat) && fat.fat_entry(disk_of(old(dev)), j) == 0) ==> r is Ok,
{
    let bps = fat.bytes_per_sector;
    if bps < 512 {
        return Err("bps is small");
    }
    let eps = bps / 4;
    assert(fat.fat_size_sectors as u64 * eps as u64 <= 0xFFFF_FFFF * 0x4000) by (nonlinear_arith)
        requires
            eps <= 0x4000,
    ;
    let wide = fat.fat_size_sectors as u64 * eps as u64;
    let prod: u32 = if wide > 0xFFFF_FFFF { 0xFFFF_FFFF } else { wide as u32 };
    let mut total = if prod < 0x0FFF_FFF0 { prod } else { 0x0FFF_FFF0 };
    if total < 4 {
        total = 4;
    }
    let h = *hint;
    let start = if h < 3 {
        3
    } else if h > total - 1 {
        total - 1
    } else {
        h
    };
    assert(total == search_total(*fat));
    let found = match scan_free(fat, dev, start, total)? {
        Some(c) => c,
        None => match scan_free(fat, dev, 3, start)? {
            Some(c) => c,
            None => {
                assert(forall|j: u32| 3 <= j < total ==> fat.fat_entry(disk_of(old(dev)), j) != 0);
                return Err("no empty cluster");
            },
        },
    };
    fat.claim_cluster(dev, found)?;
    *hint = found + 1;
    Ok(found)
}

impl Fat32 {
    /// `disk` after the chain from `c` is released, following at most `n` links: each
    /// cluster's entry is read, then set to zero.
    pub open spec fn freed(&self, disk: Disk, c: u32, n: nat) -> Disk
        decreases n,
    {
        if n == 0 || is_chain_end(c) {
            disk
        } else {
            self.freed(self.fat_put(disk, c, 0), self.fat_entry(disk, c), (n - 1) as nat)
        }
    }
}

/// Releases the chain that starts at `start` (at most 65537 clusters). Returns whether it
/// ran without a device error.
fn free_chain<D: BlockDevice>(fat: &Fat32, dev: &mut D, start: u32) -> (done: bool)
    requires
        fat.wf(),
    ensures
        done ==> disk_of(final(dev)) == fat.freed(disk_of(old(dev)), start, 65537),
        healthy(old(dev), fat.bytes_per_sector as int) ==> done && healthy(final(dev), fat.bytes_per_sector as int),
{
    let mut c = start;
    let mut guard: u32 = 0;
    while c >= 2 && c < 0x0FFF_FFF8
        invariant
            fat.wf(),
            healthy(old(dev), fat.bytes_per_sector as int) ==> healthy(dev, fat.bytes_per_sector as int),
            guard <= 65536,
            fat.freed(disk_of(old(dev)), start, 65537) == fat.freed(disk_of(dev), c, (65537 - guard) as nat),
        decreases 65536 - guard,
    {
        let ghost d = disk_of(dev);
        let n = match fat.next_cluster(dev, c) {
            Ok(v) => v,
            Err(_) => return false,
        };
        if fat.set_fat_entry(dev, c, 0).is_err() {
            return false;
        }
        c = n;
        guard = guard + 1;
        if guard > 65536 {
            assert(fat.freed(disk_of(dev), c, 0) == disk_of(dev));
            return true;
        }
    }
    true
}

} // verus!

verus! {

/// The path a request buffer starts with.
pub open spec fn request_path(buf: Seq<u8>) -> Option<Seq<u8>> {
    match path_at(buf, 0) {
        Some((p, _)) => Some(p),
        None => None,
    }
}

impl Fat32 {
    /// The entry of kind `kind` named `name` in the directory `dir` (a path from the root).
    pub open spec fn lookup(&self, disk: Disk, dir: Seq<u8>, name: Seq<u8>, kind: u8) -> Option<DirInfo> {
        match self.walk(disk, self.root_cluster, parts_from(dir, 0)) {
            Some(c) => match self.dir_entries(disk, c) {
                Some(es) => match first_named(es, name, kind) {
                    Some(i) => Some(es[i]),
                    None => None,
                },
                None => None,
            },
            None => None,
        }
    }

    /// The content of the file `e`: its chain cut to its size.
    pub open spec fn file_data(&self, disk: Disk, e: DirInfo) -> Option<Seq<u8>> {
        match self.chain(disk, e.first_cluster, max_chain()) {
            Some(cs) => Some(truncated(self.chain_data(disk, cs), e.size as int)),
            None => None,
        }
    }
}

impl<D: BlockDevice> Drives<D> {
    /// The drive and the entry of kind `kind` that `path` names: the last component is looked
    /// up in the directory its parent names, on the drive the parent resolves to.
    pub open spec fn lookup(&self, path: Seq<u8>, kind: u8) -> Option<(int, DirInfo)> {
        let (parent, name) = parent_spec(path);
        match resolve_spec(self.letters(), parent) {
            Some((i, k)) => match self.list@[i].fat.lookup(
                self.disk(i),
                parent.subrange(k, parent.len() as int),
                name,
                kind,
            ) {
                Some(e) => Some((i, e)),
                None => None,
            },
            None => None,
        }
    }

    /// `other` has the same drives as `self`, with the same geometry and metadata.
    pub open spec fn same_drives(&self, other: &Self) -> bool {
        &&& other.list@.len() == self.list@.len()
        &&& forall|j: int|
            0 <= j < self.list@.len() ==> {
                let a = #[trigger] self.list@[j];
                let b = other.list@[j];
                a.letter == b.letter && a.label == b.label && a.kind == b.kind && a.size_mb == b.size_mb
                    && a.fat == b.fat
            }
    }

    /// `other` has the same drives as `self`, and every device other than drive `i` holds
    /// what it held.
    pub open spec fn same_except(&self, other: &Self, i: int) -> bool {
        &&& self.same_drives(other)
        &&& forall|j: int| 0 <= j < self.list@.len() && j != i ==> #[trigger] other.disk(j) == self.disk(j)
    }
}

/// The 40-byte listing record of a directory entry: up to 31 bytes of its name, zero padded,
/// then two bytes that are 1 for a directory, and its size at 36.
pub open spec fn entry_record(e: DirInfo) -> Seq<u8> {
    let n = if e.name.len() < 31 { e.name.len() as int } else { 31 };
    let d: u8 = if e.is_dir { 1 } else { 0 };
    let r = splice(Seq::new(40, |i: int| 0u8), 0, e.name.subrange(0, n)).update(32, d).update(33, d);
    splice(r, 36, le32_bytes(e.size))
}

/// The 40-byte listing record of a drive: `X:`, then 1 and 2 at 32 and 33, the kind at 34
/// and the size in megabytes at 36.
pub open spec fn drive_record(letter: u8, kind: u8, size_mb: u32) -> Seq<u8> {
    let r = Seq::new(40, |i: int| 0u8).update(0, letter).update(1, 58).update(32, 1).update(33, 2).update(34, kind);
    splice(r, 36, le32_bytes(size_mb))
}

/// Whether an entry is `.` or `..`.
pub open spec fn is_dot(e: DirInfo) -> bool {
    e.name == seq![46u8] || e.name == seq![46u8, 46u8]
}

/// The entries a listing shows: all but `.` and `..`, in order.
pub open spec fn shown(es: Seq<DirInfo>) -> Seq<DirInfo>
    decreases es.len(),
{
    if es.len() == 0 {
        Seq::empty()
    } else if is_dot(es.last()) {
        shown(es.drop_last())
    } else {
        shown(es.drop_last()).push(es.last())
    }
}

proof fn lemma_shown_prefix(es: Seq<DirInfo>, k: int)
    requires
        0 <= k <= es.len(),
    ensures
        shown(es.subrange(0, k)).len() <= shown(es).len(),
        forall|i: int| 0 <= i < shown(es.subrange(0, k)).len() ==> #[trigger] shown(es.subrange(0, k))[i] == shown(es)[i],
    decreases es.len() - k,
{
    if k < es.len() {
        let p = es.subrange(0, k + 1);
        let q = es.subrange(0, k);
        assert(p.drop_last() =~= q);
        lemma_shown_prefix(es, k + 1);
        assert(shown(p) == if is_dot(p.last()) { shown(q) } else { shown(q).push(p.last()) });
        assert forall|i: int| 0 <= i < shown(q).len() implies #[trigger] shown(q)[i] == shown(es)[i] by {
            assert(shown(q)[i] == shown(p)[i]);
        }
    } else {
        assert(es.subrange(0, k) =~= es);
    }
}

/// Whether `new` is `old` with the records `recs` (40 bytes each) written from the start.
pub open spec fn records_written(old: Seq<u8>, new: Seq<u8>, recs: Seq<Seq<u8>>) -> bool {
    &&& new.len() == old.len()
    &&& 40 * recs.len() <= old.len()
    &&& forall|i: int| 0 <= i < recs.len() ==> #[trigger] new.subrange(40 * i, 40 * i + 40) == recs[i]
    &&& forall|k: int| 40 * recs.len() <= k < old.len() ==> new[k] == old[k]
}

proof fn lemma_records_step(old: Seq<u8>, mid: Seq<u8>, new: Seq<u8>, recs: Seq<Seq<u8>>, rec: Seq<u8>)
    requires
        records_written(old, mid, recs),
        rec.len() == 40,
        40 * recs.len() + 40 <= old.len(),
        new == splice(mid, 40 * recs.len() as int, rec),
    ensures
        records_written(old, new, recs.push(rec)),
{
    let n = recs.len() as int;
    assert forall|i: int| 0 <= i < n + 1 implies #[trigger] new.subrange(40 * i, 40 * i + 40) == recs.push(rec)[i] by {
        if i < n {
            assert(new.subrange(40 * i, 40 * i + 40) =~= mid.subrange(40 * i, 40 * i + 40));
        } else {
            assert(new.subrange(40 * i, 40 * i + 40) =~= rec);
        }
    }
}

/// The listing record of `e`.
fn entry_record_of(e: &DirEntry) -> (r: Vec<u8>)
    ensures
        r@ == entry_record(e@),
{
    let mut r = zeroes(40);
    let n = if e.name.len() < 31 { e.name.len() } else { 31 };
    let head = slice_of(e.name.as_slice(), 0, n);
    put_bytes(&mut r, 0, head.as_slice());
    let d: u8 = if e.is_dir { 1 } else { 0 };
    r.set(32, d);
    r.set(33, d);
    put_le32(&mut r, 36, e.size);
    r
}

/// The listing record of drive `d`.
fn drive_record_of<D: BlockDevice>(d: &Drive<D>) -> (r: Vec<u8>)
    ensures
        r@ == drive_record(d.letter, d.kind, d.size_mb),
{
    let mut r = zeroes(40);
    r.set(0, d.letter);
    r.set(1, 58);
    r.set(32, 1);
    r.set(33, 2);
    r.set(34, d.kind);
    put_le32(&mut r, 36, d.size_mb);
    r
}

/// Whether `e` is `.` or `..`.
fn entry_is_dot(e: &DirEntry) -> (r: bool)
    ensures
        r == is_dot(e@),
{
    let n = e.name.len();
    let r = (n == 1 && e.name[0] == 46) || (n == 2 && e.name[0] == 46 && e.name[1] == 46);
    proof {
        if n == 1 && e.name@[0] == 46 {
            assert(e.name@ =~= seq![46u8]);
        }
        if n == 2 && e.name@[0] == 46 && e.name@[1] == 46 {
            assert(e.name@ =~= seq![46u8, 46u8]);
        }
    }
    r
}


/// Writes the listing record of each drive, as many as fit and at most 26; returns how many.
fn list_drives<D: BlockDevice>(ds: &Drives<D>, buf: &mut Vec<u8>) -> (r: usize)
    ensures
        ({
            let cap = if old(buf)@.len() / 40 < 26 { old(buf)@.len() / 40 } else { 26 };
            let n = if ds.list@.len() < cap { ds.list@.len() as int } else { cap as int };
            &&& r == n
            &&& records_written(
                old(buf)@,
                final(buf)@,
                ds.list@.subrange(0, n).map_values(|d: Drive<D>| drive_record(d.letter, d.kind, d.size_mb)),
            )
        }),
{
    let blen = buf.len();
    let cap: usize = if blen / 40 < 26 { blen / 40 } else { 26 };
    let n: usize = if ds.list.len() < cap { ds.list.len() } else { cap };
    let mut count: usize = 0;
    let ghost recs0 = Seq::<Seq<u8>>::empty();
    assert(records_written(old(buf)@, buf@, ds.list@.subrange(0, 0).map_values(
        |d: Drive<D>| drive_record(d.letter, d.kind, d.size_mb),
    )));
    while count < n
        invariant
            blen == old(buf)@.len(),
            buf@.len() == blen,
            cap == (if blen / 40 < 26 { blen / 40 } else { 26 }),
            n == (if ds.list@.len() < cap { ds.list@.len() as int } else { cap as int }),
            count <= n,
            records_written(
                old(buf)@,
                buf@,
                ds.list@.subrange(0, count as int).map_values(|d: Drive<D>| drive_record(d.letter, d.kind, d.size_mb)),
            ),
        decreases n - count,
    {
        assert(40 * count + 40 <= blen) by (nonlinear_arith)
            requires
                count < n,
                n <= cap,
                cap <= blen / 40,
        ;
        let off = count * 40;
        let rec = drive_record_of(&ds.list[count]);
        let ghost before = buf@;
        put_bytes(buf, off, rec.as_slice());
        proof {
            let f = |d: Drive<D>| drive_record(d.letter, d.kind, d.size_mb);
            let recs = ds.list@.subrange(0, count as int).map_values(f);
            lemma_records_step(old(buf)@, before, buf@, recs, rec@);
            assert(recs.push(rec@) =~= ds.list@.subrange(0, count + 1).map_values(f));
        }
        count = count + 1;
    }
    count
}

/// Writes the listing record of each entry but `.` and `..`, as many as fit and at most 64;
/// returns how many.
fn write_listing(entries: &Vec<DirEntry>, buf: &mut Vec<u8>) -> (r: usize)
    ensures
        ({
            let es = entries@.map_values(|e: DirEntry| e@);
            let cap = if old(buf)@.len() / 40 < 64 { old(buf)@.len() / 40 } else { 64 };
            let n = if shown(es).len() < cap { shown(es).len() as int } else { cap as int };
            &&& r == n
            &&& records_written(old(buf)@, final(buf)@, shown(es).subrange(0, n).map_values(|e: DirInfo| entry_record(e)))
        }),
{
    let blen = buf.len();
    let ghost es = entries@.map_values(|e: DirEntry| e@);
    let cap: usize = if blen / 40 < 64 { blen / 40 } else { 64 };
    let mut count: usize = 0;
    let mut idx: usize = 0;
    assert(es.subrange(0, 0) =~= Seq::<DirInfo>::empty());
    while idx < entries.len() && count < cap
        invariant
            blen == old(buf)@.len(),
            buf@.len() == blen,
            es == entries@.map_values(|e: DirEntry| e@),
            idx <= entries@.len(),
            cap == (if blen / 40 < 64 { blen / 40 } else { 64 }),
            count == shown(es.subrange(0, idx as int)).len(),
            count <= cap,
            records_written(
                old(buf)@,
                buf@,
                shown(es).subrange(0, count as int).map_values(|e: DirInfo| entry_record(e)),
            ),
        decreases entries@.len() - idx,
    {
        let e = &entries[idx];
        let ghost p1 = es.subrange(0, idx + 1);
        assert(p1.drop_last() =~= es.subrange(0, idx as int));
        assert(p1.last() == e@);
        if !entry_is_dot(e) {
            assert(40 * count + 40 <= blen) by (nonlinear_arith)
                requires
                    count < cap,
                    cap <= blen / 40,
            ;
            let off = count * 40;
            let rec = entry_record_of(e);
            let ghost before = buf@;
            put_bytes(buf, off, rec.as_slice());
            proof {
                lemma_shown_prefix(es, idx + 1);
                assert(shown(p1) == shown(es.subrange(0, idx as int)).push(e@));
                assert(shown(p1)[count as int] == e@);
                let f = |e: DirInfo| entry_record(e);
                let recs = shown(es).subrange(0, count as int).map_values(f);
                lemma_records_step(old(buf)@, before, buf@, recs, rec@);
                assert(shown(es)[count as int] == e@);
                assert(recs.push(rec@) =~= shown(es).subrange(0, count + 1).map_values(f));
            }
            count = count + 1;
        }
        idx = idx + 1;
    }
    proof {
        assert(es.subrange(0, es.len() as int) =~= es);
        lemma_shown_prefix(es, idx as int);
    }
    count
}

impl<D: BlockDevice> Drives<D> {
    /// Whether `new` is `old` with the listing of the directory `p` written in `n` records:
    /// `p` resolves to a drive, names a directory there whose entries can be read, and `n` of
    /// its shown entries fit (at most 64).
    pub open spec fn listed(&self, p: Seq<u8>, old: Seq<u8>, new: Seq<u8>, n: int) -> bool {
        &&& resolve_spec(self.letters(), p) matches Some((i, k))
        &&& self.list@[i].fat.walk(
            self.disk(i),
            self.list@[i].fat.root_cluster,
            parts_from(p.subrange(k, p.len() as int), 0),
        ) matches Some(c)
        &&& self.list@[i].fat.dir_entries(self.disk(i), c) matches Some(es)
        &&& {
            let cap = if old.len() / 40 < 64 { old.len() / 40 } else { 64 };
            &&& n == (if shown(es).len() < cap { shown(es).len() as int } else { cap as int })
            &&& records_written(old, new, shown(es).subrange(0, n).map_values(|e: DirInfo| entry_record(e)))
        }
    }
}

/// Lists a directory into `buf` (request: the path at the start of `buf`). An empty path
/// lists the drives, at most 26; any other path lists the directory it names, without `.`
/// and `..`, at most 64 entries. Each entry is a 40-byte record; as many as fit are written
/// and their number is returned. Nothing is written when the request fails.
#[verifier::spinoff_prover]
#[verifier::rlimit(50)]
pub fn list_dir_call<D: BlockDevice>(ds: &mut Drives<D>, buf: &mut Vec<u8>) -> (r: u64)
    requires
        old(ds).wf(),
    ensures
        final(ds).wf(),
        old(ds).same_except(final(ds), -1),
        final(ds).free_hint == old(ds).free_hint,
        final(buf)@.len() == old(buf)@.len(),
        r == 0 ==> final(buf)@ == old(buf)@,
        request_path(old(buf)@) is None ==> r == 0,
        request_path(old(buf)@) matches Some(p) && p.len() == 0 ==> {
            let cap = if old(buf)@.len() / 40 < 26 { old(buf)@.len() / 40 } else { 26 };
            let n = if old(ds).list@.len() < cap { old(ds).list@.len() as int } else { cap as int };
            &&& r == n
            &&& records_written(
                old(buf)@,
                final(buf)@,
                old(ds).list@.subrange(0, n).map_values(|d: Drive<D>| drive_record(d.letter, d.kind, d.size_mb)),
            )
        },
        match request_path(old(buf)@) {
            Some(p) => p.len() > 0 && r > 0 ==> old(ds).listed(p, old(buf)@, final(buf)@, r as int),
            None => true,
        },
{
    let blen = buf.len();
    let (path, _) = match read_path(buf.as_slice(), 0) {
        Some(x) => x,
        None => return 0,
    };
    if path.len() == 0 {
        let n = list_drives(ds, buf);
        proof {
            assert(ds.same_except(ds, -1));
        }
        return n as u64;
    }
    let (i, k) = match ds.resolve(path.as_slice()) {
        Some(x) => x,
        None => return 0,
    };
    let rest = slice_of(path.as_slice(), k, path.len());
    assert(rest@ == path@.subrange(k as int, path@.len() as int));
    let ghost d0 = ds.disk(i as int);
    let drive = &mut ds.list[i];
    assert(drive.fat.wf());
    let cluster = match walk_dir(&drive.fat, &mut drive.dev, rest.as_slice()) {
        Ok(c) => c,
        Err(_) => return 0,
    };
    let entries = match drive.fat.list_dir(&mut drive.dev, cluster) {
        Ok(e) => e,
        Err(_) => return 0,
    };
    let n = write_listing(&entries, buf);
    assert(ds.list@[i as int].fat.walk(d0, ds.list@[i as int].fat.root_cluster, parts_from(rest@, 0)) == Some(cluster));
    n as u64
}

} // verus!

verus! {

impl<D: BlockDevice> Drives<D> {
    /// The drive and first cluster of the directory that `dir` names.
    pub open spec fn dir_at(&self, dir: Seq<u8>) -> Option<(int, u32)> {
        match resolve_spec(self.letters(), dir) {
            Some((i, k)) => match self.list@[i].fat.walk(
                self.disk(i),
                self.list@[i].fat.root_cluster,
                parts_from(dir.subrange(k, dir.len() as int), 0),
            ) {
                Some(c) => Some((i, c)),
                None => None,
            },
            None => None,
        }
    }
}

/// Drives that were healthy stay so when only drive `i`'s device changed and it stayed
/// healthy.
proof fn lemma_healthy_after<D: BlockDevice>(before: &Drives<D>, after: &Drives<D>, i: int)
    requires
        before.healthy(),
        after.list@.len() == before.list@.len(),
        0 <= i < before.list@.len(),
        forall|j: int| 0 <= j < before.list@.len() && j != i ==> #[trigger] after.list@[j] == before.list@[j],
        after.list@[i].fat == before.list@[i].fat,
        healthy(&after.list@[i].dev, after.list@[i].fat.bytes_per_sector as int),
    ensures
        after.healthy(),
{
    assert forall|j: int| 0 <= j < after.list@.len()
        implies healthy(&(#[trigger] after.list@[j]).dev, after.list@[j].fat.bytes_per_sector as int) by {
        if j != i {
            assert(after.list@[j] == before.list@[j]);
        }
    }
}

/// Finds the directory `dir` names: its drive and first cluster.
fn open_dir<D: BlockDevice>(ds: &mut Drives<D>, dir: &[u8]) -> (r: Option<(usize, u32)>)
    requires
        old(ds).wf(),
    ensures
        final(ds).wf(),
        old(ds).same_except(final(ds), -1),
        final(ds).free_hint == old(ds).free_hint,
        r matches Some((i, c)) ==> old(ds).dir_at(dir@) == Some((i as int, c)) && i < old(ds).list@.len(),
        old(ds).healthy() ==> final(ds).healthy(),
        old(ds).healthy() && old(ds).dir_at(dir@) is Some ==> r is Some,
{
    let (i, k) = match ds.resolve(dir) {
        Some(x) => x,
        None => return None,
    };
    let rest = slice_of(dir, k, dir.len());
    let ghost before = *ds;
    let drive = &mut ds.list[i];
    assert(drive.fat.wf());
    assert(before.healthy() ==> healthy(&drive.dev, drive.fat.bytes_per_sector as int));
    let r = walk_dir(&drive.fat, &mut drive.dev, rest.as_slice());
    assert(before.same_except(ds, -1));
    proof {
        if before.healthy() {
            lemma_healthy_after(&before, ds, i as int);
        }
    }
    match r {
        Ok(c) => Some((i, c)),
        Err(_) => None,
    }
}

/// The content of the file named `name` in the directory at `dir`; with `nonempty`, only a
/// file with clusters and a size above zero.
fn file_in_dir<D: BlockDevice>(fat: &Fat32, dev: &mut D, dir: u32, name: &[u8], nonempty: bool) -> (r: Option<Vec<u8>>)
    requires
        fat.wf(),
    ensures
        disk_of(final(dev)) == disk_of(old(dev)),
        r matches Some(v) ==> {
            &&& fat.dir_entries(disk_of(old(dev)), dir) matches Some(es)
            &&& first_named(es, name@, 2) matches Some(j)
            &&& nonempty ==> es[j].first_cluster >= 2 && es[j].size > 0
            &&& fat.file_data(disk_of(old(dev)), es[j]) == Some(v@)
        },
        healthy(old(dev), fat.bytes_per_sector as int) ==> healthy(final(dev), fat.bytes_per_sector as int),
        healthy(old(dev), fat.bytes_per_sector as int) && (fat.dir_entries(disk_of(old(dev)), dir) matches Some(es) && first_named(es, name@, 2) matches Some(j)
            && (nonempty ==> es[j].first_cluster >= 2 && es[j].size > 0)
            && fat.file_data(disk_of(old(dev)), es[j]) is Some) ==> r is Some,
{
    let entries = match fat.list_dir(dev, dir) {
        Ok(e) => e,
        Err(_) => return None,
    };
    let idx = match find_named(&entries, name, 2) {
        Some(x) => x,
        None => return None,
    };
    let e = &entries[idx];
    if nonempty && (e.first_cluster < 2 || e.size == 0) {
        return None;
    }
    proof {
        let es = entries@.map_values(|e: DirEntry| e@);
        lemma_first_named_range(es, name@, 2);
        assert(es[idx as int] == e@);
        assert(!e.is_dir);
    }
    match fat.read_file(dev, e) {
        Ok(d) => Some(d),
        Err(_) => None,
    }
}

proof fn lemma_same_trans<D: BlockDevice>(a: &Drives<D>, b: &Drives<D>, c: &Drives<D>, i: int)
    requires
        a.same_except(b, i),
        b.same_except(c, i),
    ensures
        a.same_except(c, i),
{
    assert forall|j: int| 0 <= j < a.list@.len() && j != i implies #[trigger] c.disk(j) == a.disk(j) by {
        assert(b.disk(j) == a.disk(j));
    }
    assert forall|j: int| 0 <= j < a.list@.len() implies {
        let x = #[trigger] a.list@[j];
        let y = c.list@[j];
        x.letter == y.letter && x.label == y.label && x.kind == y.kind && x.size_mb == y.size_mb && x.fat == y.fat
    } by {
        assert(a.list@[j].fat == b.list@[j].fat);
    }
}

/// Reads a file into `buf` (request: the path at the start of `buf`): as much of it as fits,
/// returning how many bytes were copied; 0 when the request fails or the file is empty.
#[verifier::spinoff_prover]
#[verifier::rlimit(50)]
pub fn read_file_call<D: BlockDevice>(ds: &mut Drives<D>, buf: &mut Vec<u8>) -> (r: u64)
    requires
        old(ds).wf(),
    ensures
        final(ds).wf(),
        old(ds).same_except(final(ds), -1),
        final(ds).free_hint == old(ds).free_hint,
        final(buf)@.len() == old(buf)@.len(),
        r == 0 ==> final(buf)@ == old(buf)@,
        request_path(old(buf)@) is None ==> r == 0,
        match request_path(old(buf)@) {
            Some(p) => r > 0 ==> {
                &&& old(ds).lookup(p, 2) matches Some((i, e))
                &&& e.first_cluster >= 2 && e.size > 0
                &&& old(ds).list@[i].fat.file_data(old(ds).disk(i), e) matches Some(data)
                &&& r == (if data.len() < old(buf)@.len() { data.len() } else { old(buf)@.len() })
                &&& final(buf)@ == splice(old(buf)@, 0, data.subrange(0, r as int))
            },
            None => true,
        },
        old(ds).healthy() ==> final(ds).healthy(),
        old(ds).healthy() ==> match request_path(old(buf)@) {
            Some(p) => match old(ds).lookup(p, 2) {
                Some((i, e)) => match old(ds).list@[i].fat.file_data(old(ds).disk(i), e) {
                    Some(data) => e.first_cluster >= 2 && e.size > 0 ==> r == (if data.len() < old(buf)@.len() {
                        data.len()
                    } else {
                        old(buf)@.len()
                    }),
                    None => true,
                },
                None => true,
            },
            None => true,
        },
{
    let (full, _) = match read_path(buf.as_slice(), 0) {
        Some(x) => x,
        None => return 0,
    };
    let (parent, name) = split_parent(full.as_slice());
    let (i, pc) = match open_dir(ds, parent.as_slice()) {
        Some(x) => x,
        None => return 0,
    };
    let ghost mid = *ds;
    assert(mid.disk(i as int) == old(ds).disk(i as int));
    assert(mid.list@[i as int].fat == old(ds).list@[i as int].fat);
    let drive = &mut ds.list[i];
    assert(drive.fat.wf());
    assert(mid.healthy() ==> healthy(&drive.dev, drive.fat.bytes_per_sector as int));
    proof {
        let (pp, nm) = parent_spec(full@);
        assert(pp == parent@ && nm == name@);
        assert(old(ds).dir_at(parent@) == Some((i as int, pc)));
    }
    let got = file_in_dir(&drive.fat, &mut drive.dev, pc, name.as_slice(), true);
    proof {
        assert(mid.same_except(ds, -1));
        lemma_same_trans(old(ds), &mid, ds, -1);
        if mid.healthy() {
            lemma_healthy_after(&mid, ds, i as int);
        }
    }
    let data = match got {
        Some(d) => d,
        None => return 0,
    };
    let n = if data.len() < buf.len() { data.len() } else { buf.len() };
    let head = slice_of(data.as_slice(), 0, n);
    put_bytes(buf, 0, head.as_slice());
    proof {
        let (pp, nm) = parent_spec(full@);
        assert(pp == parent@ && nm == name@);
        assert(old(ds).dir_at(parent@) == Some((i as int, pc)));
    }
    n as u64
}

/// The content of the file `name` in the `RSYS` directory of the system drive.
pub fn read_system_file<D: BlockDevice>(ds: &mut Drives<D>, name: &[u8]) -> (r: Option<Vec<u8>>)
    requires
        old(ds).wf(),
    ensures
        final(ds).wf(),
        old(ds).same_except(final(ds), -1),
        final(ds).free_hint == old(ds).free_hint,
        old(ds).list@.len() == 0 ==> r is None,
        r matches Some(v) ==> {
            &&& old(ds).list@.len() > 0
            &&& old(ds).list@[0].fat.lookup(old(ds).disk(0), "RSYS".spec_bytes(), name@, 2) matches Some(e)
            &&& old(ds).list@[0].fat.file_data(old(ds).disk(0), e) == Some(v@)
        },
        old(ds).healthy() ==> final(ds).healthy(),
        old(ds).healthy() && old(ds).list@.len() > 0 && (old(ds).list@[0].fat.lookup(old(ds).disk(0), "RSYS".spec_bytes(), name@, 2) matches Some(e)
            && old(ds).list@[0].fat.file_data(old(ds).disk(0), e) is Some) ==> r is Some,
{
    if ds.list.len() == 0 {
        return None;
    }
    let ghost before = *ds;
    let drive = &mut ds.list[0];
    assert(drive.fat.wf());
    assert(before.healthy() ==> healthy(&drive.dev, drive.fat.bytes_per_sector as int));
    let cluster = match walk_dir(&drive.fat, &mut drive.dev, "RSYS".as_bytes()) {
        Ok(c) => c,
        Err(_) => return None,
    };
    let entries = match drive.fat.list_dir(&mut drive.dev, cluster) {
        Ok(e) => e,
        Err(_) => return None,
    };
    let idx = match find_named(&entries, name, 2) {
        Some(x) => x,
        None => return None,
    };
    proof {
        let es = entries@.map_values(|e: DirEntry| e@);
        lemma_first_named_range(es, name@, 2);
        assert(es[idx as int] == entries@[idx as int]@);
    }
    let r = drive.fat.read_file(&mut drive.dev, &entries[idx]);
    assert(before.same_except(ds, -1));
    proof {
        let es = entries@.map_values(|e: DirEntry| e@);
        lemma_first_named_range(es, name@, 2);
        if before.healthy() {
            lemma_healthy_after(&before, ds, 0);
        }
    }
    match r {
        Ok(d) => Some(d),
        Err(_) => None,
    }
}

} // verus!

verus! {

/// The parent directory of the path a request starts with.
pub open spec fn request_parent(buf: Seq<u8>) -> Seq<u8> {
    match request_path(buf) {
        Some(p) => parent_spec(p).0,
        None => Seq::empty(),
    }
}

impl<D: BlockDevice> Drives<D> {
    /// The drive a directory path resolves to, or -1.
    pub open spec fn touched(&self, dir: Seq<u8>) -> int {
        match resolve_spec(self.letters(), dir) {
            Some((i, _)) => i,
            None => -1,
        }
    }

    /// Whether the device of the drive that the directory `dir` resolves to holds, in `other`,
    /// what some earlier state of it held with the live entry named `sn` of that directory
    /// replaced by `f` of it.
    pub open spec fn patched_after(&self, other: &Self, dir: Seq<u8>, sn: Seq<u8>, f: spec_fn(Seq<u8>) -> Seq<u8>) -> bool {
        match self.dir_at(dir) {
            Some((i, pc)) => exists|mid: Disk| #[trigger] self.list@[i].fat.patched(mid, other.disk(i), pc, sn, f),
            None => false,
        }
    }

    /// Whether drive `i` of `other` is drive `i` of `self` with the record `rec` put in a free
    /// record of the directory `dir` names, on the drive it resolves to.
    pub open spec fn created(&self, other: &Self, dir: Seq<u8>, rec: Seq<u8>) -> bool {
        &&& self.dir_at(dir) matches Some((i, pc))
        &&& self.list@[i].fat.put_new(self.disk(i), other.disk(i), pc, rec)
    }
}

/// The answer a create request gets before the disk is touched: 1 when the request holds no
/// path, its parent resolves to no drive, or its last component has no 8.3 name.
pub open spec fn create_gate(letters: Seq<u8>, buf: Seq<u8>) -> Option<u64> {
    match request_path(buf) {
        None => Some(1),
        Some(full) => {
            let (parent, name) = parent_spec(full);
            if resolve_spec(letters, parent) is None || short_name_spec(name) is None {
                Some(1)
            } else {
                None
            }
        },
    }
}

/// The 8.3 name of the last component of the request path.
pub open spec fn request_sn(buf: Seq<u8>) -> Seq<u8> {
    match request_path(buf) {
        Some(full) => match short_name_spec(parent_spec(full).1) {
            Some(sn) => sn,
            None => Seq::empty(),
        },
        None => Seq::empty(),
    }
}

/// Splits the request path into parent and 8.3 name, resolving the parent; `None` (answer
/// 1) when the request fails before the disk is touched.
fn create_target<D: BlockDevice>(ds: &Drives<D>, buf: &[u8]) -> (r: Option<(Vec<u8>, [u8; 11])>)
    ensures
        r is None <==> create_gate(ds.letters(), buf@) is Some,
        r matches Some((parent, sn)) ==> parent@ == request_parent(buf@) && sn@ == request_sn(buf@),
{
    let (full, _) = match read_path(buf, 0) {
        Some(x) => x,
        None => return None,
    };
    let (parent, name) = split_parent(full.as_slice());
    if ds.resolve(parent.as_slice()).is_none() {
        return None;
    }
    match short_name_83(name.as_slice()) {
        Some(sn) => Some((parent, sn)),
        None => None,
    }
}

/// Creates an empty file (request: its path at the start of `buf`). 0 on success, 1 on a
/// failure.
#[verifier::spinoff_prover]
#[verifier::rlimit(50)]
pub fn create_file_call<D: BlockDevice>(ds: &mut Drives<D>, buf: &[u8]) -> (r: u64)
    requires
        old(ds).wf(),
    ensures
        final(ds).wf(),
        final(ds).free_hint == old(ds).free_hint,
        old(ds).same_except(final(ds), old(ds).touched(request_parent(buf@))),
        r == 0 || r == 1,
        create_gate(old(ds).letters(), buf@) is Some ==> r == 1 && old(ds).same_except(final(ds), -1),
        r == 0 ==> old(ds).created(final(ds), request_parent(buf@), new_record(request_sn(buf@), 0x20, 0)),
        old(ds).healthy() ==> final(ds).healthy(),
        old(ds).healthy() && create_gate(old(ds).letters(), buf@) is None ==> match old(ds).dir_at(request_parent(buf@)) {
            Some((i, pc)) => !old(ds).list@[i].fat.dir_full(old(ds).disk(i), pc, 65) ==> r == 0,
            None => r == 1,
        },
{
    let (parent, sn) = match create_target(ds, buf) {
        Some(x) => x,
        None => {
            proof {
                assert(old(ds).same_except(ds, -1));
            }
            return 1;
        },
    };
    let (i, pc) = match open_dir(ds, parent.as_slice()) {
        Some(x) => x,
        None => return 1,
    };
    let ghost mid = *ds;
    assert(mid.disk(i as int) == old(ds).disk(i as int));
    assert(mid.list@[i as int].fat == old(ds).list@[i as int].fat);
    let drive = &mut ds.list[i];
    assert(drive.fat.wf());
    assert(mid.healthy() ==> healthy(&drive.dev, drive.fat.bytes_per_sector as int));
    let r = insert_entry(&drive.fat, &mut drive.dev, pc, sn, 0x20, 0);
    proof {
        assert(mid.same_except(ds, i as int));
        lemma_same_trans(old(ds), &mid, ds, i as int);
        if mid.healthy() {
            lemma_healthy_after(&mid, ds, i as int);
        }
    }
    r
}

/// Creates a directory (request: its path at the start of `buf`): takes a free cluster for
/// it, then adds its entry to the parent. 0 on success, 1 on a failure.
#[verifier::spinoff_prover]
#[verifier::rlimit(50)]
pub fn create_dir_call<D: BlockDevice>(ds: &mut Drives<D>, buf: &[u8]) -> (r: u64)
    requires
        old(ds).wf(),
    ensures
        final(ds).wf(),
        old(ds).same_except(final(ds), old(ds).touched(request_parent(buf@))),
        r == 0 || r == 1,
        create_gate(old(ds).letters(), buf@) is Some ==> r == 1 && old(ds).same_except(final(ds), -1)
            && final(ds).free_hint == old(ds).free_hint,
        r == 0 ==> {
            &&& old(ds).dir_at(request_parent(buf@)) matches Some((i, pc))
            &&& {
                let fat = old(ds).list@[i].fat;
                let disk = old(ds).disk(i);
                let total = search_total(fat);
                let dc = (final(ds).free_hint - 1) as u32;
                &&& first_free_from(fat, disk, search_start(old(ds).free_hint, total), total, dc)
                &&& fat.put_new(
                    fat.cluster_zeroed(fat.fat_put(disk, dc, 0x0FFF_FFFF), dc),
                    final(ds).disk(i),
                    pc,
                    new_record(request_sn(buf@), 0x10, dc),
                )
            }
        },
        old(ds).healthy() ==> final(ds).healthy(),
        old(ds).healthy() && create_gate(old(ds).letters(), buf@) is None ==> match old(ds).dir_at(request_parent(buf@)) {
            Some((i, pc)) => {
                let fat = old(ds).list@[i].fat;
                let disk = old(ds).disk(i);
                let total = search_total(fat);
                let dc = (final(ds).free_hint - 1) as u32;
                fat.bytes_per_sector >= 512 && (exists|j: u32| 3 <= j < total && fat.fat_entry(disk, j) == 0) ==> r == 0 || {
                    &&& first_free_from(fat, disk, search_start(old(ds).free_hint, total), total, dc)
                    &&& fat.dir_full(fat.cluster_zeroed(fat.fat_put(disk, dc, 0x0FFF_FFFF), dc), pc, 65)
                }
            },
            None => r == 1,
        },
{
    let (parent, sn) = match create_target(ds, buf) {
        Some(x) => x,
        None => {
            proof {
                assert(old(ds).same_except(ds, -1));
            }
            return 1;
        },
    };
    let (i, pc) = match open_dir(ds, parent.as_slice()) {
        Some(x) => x,
        None => return 1,
    };
    let ghost mid = *ds;
    assert(mid.disk(i as int) == old(ds).disk(i as int));
    assert(mid.list@[i as int].fat == old(ds).list@[i as int].fat);
    let drive = &mut ds.list[i];
    assert(drive.fat.wf());
    assert(mid.healthy() ==> healthy(&drive.dev, drive.fat.bytes_per_sector as int));
    let dc = match alloc_cluster(&drive.fat, &mut drive.dev, &mut ds.free_hint) {
        Ok(c) => c,
        Err(_) => {
            proof {
                assert(mid.same_except(ds, i as int));
                lemma_same_trans(old(ds), &mid, ds, i as int);
                if mid.healthy() {
                    lemma_healthy_after(&mid, ds, i as int);
                }
            }
            return 1;
        },
    };
    let r = insert_entry(&drive.fat, &mut drive.dev, pc, sn, 0x10, dc);
    proof {
        assert(mid.same_except(ds, i as int));
        lemma_same_trans(old(ds), &mid, ds, i as int);
        if mid.healthy() {
            lemma_healthy_after(&mid, ds, i as int);
        }
    }
    r
}

/// Whether the path names a drive root (`X:` or `X:/`).
pub open spec fn names_root(p: Seq<u8>) -> bool {
    drive_of(p) matches Some((_, k)) && k == p.len()
}

/// Releases the clusters of the file named `name` in the directory at `dir`, when it is
/// found and has any.
fn free_named<D: BlockDevice>(fat: &Fat32, dev: &mut D, dir: u32, name: &[u8])
    requires
        fat.wf(),
    ensures
        healthy(old(dev), fat.bytes_per_sector as int) ==> healthy(final(dev), fat.bytes_per_sector as int),
        healthy(old(dev), fat.bytes_per_sector as int) ==> disk_of(final(dev)) == match fat.dir_entries(disk_of(old(dev)), dir) {
            Some(es) => match first_named(es, name@, 2) {
                Some(j) => if es[j].first_cluster >= 2 {
                    fat.freed(disk_of(old(dev)), es[j].first_cluster, 65537)
                } else {
                    disk_of(old(dev))
                },
                None => disk_of(old(dev)),
            },
            None => disk_of(old(dev)),
        },
{
    match fat.list_dir(dev, dir) {
        Ok(es) => {
            match find_named(&es, name, 2) {
                Some(j) => {
                    if es[j].first_cluster >= 2 {
                        free_chain(fat, dev, es[j].first_cluster);
                    }
                },
                None => {},
            }
        },
        Err(_) => {},
    }
}

/// The answer a delete request gets before the disk is touched: 1 when the request holds no
/// path, its parent resolves to no drive or its name has no 8.3 form; 2 for a drive root,
/// when the user may not write (`perm` 3 and up), or for a path the system needs when the
/// user is not an administrator (`perm` 1).
pub open spec fn delete_gate(letters: Seq<u8>, buf: Seq<u8>, perm: u32) -> Option<u64> {
    match request_path(buf) {
        None => Some(1),
        Some(full) => {
            let (parent, name) = parent_spec(full);
            if names_root(full) {
                Some(2)
            } else if resolve_spec(letters, parent) is None || short_name_spec(name) is None {
                Some(1)
            } else if perm >= 3 {
                Some(2)
            } else if critical(full) && perm != 1 {
                Some(2)
            } else {
                None
            }
        },
    }
}

/// The parent, name and 8.3 name a delete request names, or the answer it gets before the
/// disk is touched.
fn delete_target<D: BlockDevice>(ds: &Drives<D>, buf: &[u8], perm: u32) -> (r: Result<(Vec<u8>, Vec<u8>, [u8; 11]), u64>)
    ensures
        match r {
            Ok((parent, name, sn)) => delete_gate(ds.letters(), buf@, perm) is None && parent@ == request_parent(buf@)
                && name@ == parent_spec(request_path(buf@)->Some_0).1 && sn@ == request_sn(buf@),
            Err(c) => delete_gate(ds.letters(), buf@, perm) == Some(c),
        },
{
    let (full, _) = match read_path(buf, 0) {
        Some(x) => x,
        None => return Err(1),
    };
    let root = match split_drive(full.as_slice()) {
        Some((_, k)) => k == full.len(),
        None => false,
    };
    if root {
        return Err(2);
    }
    let (parent, name) = split_parent(full.as_slice());
    let sn = match (ds.resolve(parent.as_slice()), short_name_83(name.as_slice())) {
        (Some(_), Some(sn)) => sn,
        _ => return Err(1),
    };
    if perm >= 3 || (is_critical(full.as_slice()) && perm != 1) {
        return Err(2);
    }
    Ok((parent, name, sn))
}

/// Deletes a file (request: its path at the start of `buf`), for a user with permission
/// level `perm`: releases its clusters, then marks its entry deleted. 0 on success, 1 on a
/// failure, 2 when not permitted.
#[verifier::spinoff_prover]
#[verifier::rlimit(50)]
pub fn delete_file_call<D: BlockDevice>(ds: &mut Drives<D>, buf: &[u8], perm: u32) -> (r: u64)
    requires
        old(ds).wf(),
    ensures
        final(ds).wf(),
        final(ds).free_hint == old(ds).free_hint,
        old(ds).same_except(final(ds), old(ds).touched(request_parent(buf@))),
        r <= 2,
        r == 2 ==> delete_gate(old(ds).letters(), buf@, perm) == Some(2u64),
        delete_gate(old(ds).letters(), buf@, perm) matches Some(c) ==> r == c && old(ds).same_except(
            final(ds),
            -1,
        ),
        delete_gate(old(ds).letters(), buf@, perm) is None && r == 0 ==> old(ds).patched_after(
            final(ds),
            request_parent(buf@),
            request_sn(buf@),
            entry_fn(None),
        ),
{
    let (parent, name, sn) = match delete_target(ds, buf, perm) {
        Ok(x) => x,
        Err(c) => {
            proof {
                assert(old(ds).same_except(ds, -1));
            }
            return c;
        },
    };
    let (i, pc) = match open_dir(ds, parent.as_slice()) {
        Some(x) => x,
        None => return 1,
    };
    let ghost mid = *ds;
    assert(mid.disk(i as int) == old(ds).disk(i as int));
    assert(mid.list@[i as int].fat == old(ds).list@[i as int].fat);
    let drive = &mut ds.list[i];
    assert(drive.fat.wf());
    free_named(&drive.fat, &mut drive.dev, pc, name.as_slice());
    let ghost before = disk_of(&drive.dev);
    let r = patch_entry(&drive.fat, &mut drive.dev, pc, sn, None);
    proof {
        assert(mid.same_except(ds, i as int));
        lemma_same_trans(old(ds), &mid, ds, i as int);
        if r == 0 {
            assert(entry_fn(None) == entry_fn(match None::<[u8; 11]> { Some(ns) => Some(ns@), None => None }));
            assert(old(ds).list@[i as int].fat.patched(before, ds.disk(i as int), pc, sn@, entry_fn(None)));
            assert(sn@ == request_sn(buf@));
            assert(old(ds).dir_at(request_parent(buf@)) == Some((i as int, pc)));
            let d_i = ds.disk(i as int);
            let rs = request_sn(buf@);
            assert(old(ds).list@[i as int].fat.patched(before, d_i, pc, rs, entry_fn(None)));
            let (i2, pc2) = old(ds).dir_at(request_parent(buf@))->Some_0;
            assert(i2 == i && pc2 == pc);
            assert(old(ds).list@[i2].fat.patched(before, ds.disk(i2), pc2, rs, entry_fn(None)));
            assert(old(ds).patched_after(ds, request_parent(buf@), request_sn(buf@), entry_fn(None)));
        }
    }
    r
}

/// The answer a rename request gets before the disk is touched (the request holds the path,
/// then the new name): 1 when either is missing, the parent resolves to no drive, or either
/// name has no 8.3 form; 2 for a drive root, or for a path the system needs when the user is
/// not an administrator (`perm` 1).
pub open spec fn rename_gate(letters: Seq<u8>, buf: Seq<u8>, perm: u32) -> Option<u64> {
    match path_at(buf, 0) {
        None => Some(1),
        Some((full, next)) => match path_at(buf, next) {
            None => Some(1),
            Some((newname, _)) => {
                let (parent, name) = parent_spec(full);
                if names_root(full) {
                    Some(2)
                } else if resolve_spec(letters, parent) is None || short_name_spec(name) is None
                    || short_name_spec(newname) is None {
                    Some(1)
                } else if critical(full) && perm != 1 {
                    Some(2)
                } else {
                    None
                }
            },
        },
    }
}

/// The new 8.3 name a rename request asks for.
pub open spec fn rename_sn(buf: Seq<u8>) -> Seq<u8> {
    match path_at(buf, 0) {
        Some((_, next)) => match path_at(buf, next) {
            Some((newname, _)) => match short_name_spec(newname) {
                Some(sn) => sn,
                None => Seq::empty(),
            },
            None => Seq::empty(),
        },
        None => Seq::empty(),
    }
}

/// Renames a file or directory (request: its path, then the new name). 0 on success, 1 on a
/// failure, 2 when not permitted.
#[verifier::spinoff_prover]
#[verifier::rlimit(50)]
pub fn rename_call<D: BlockDevice>(ds: &mut Drives<D>, buf: &[u8], perm: u32) -> (r: u64)
    requires
        old(ds).wf(),
    ensures
        final(ds).wf(),
        final(ds).free_hint == old(ds).free_hint,
        old(ds).same_except(final(ds), old(ds).touched(request_parent(buf@))),
        r <= 2,
        r == 2 ==> rename_gate(old(ds).letters(), buf@, perm) == Some(2u64),
        rename_gate(old(ds).letters(), buf@, perm) matches Some(c) ==> r == c && old(ds).same_except(
            final(ds),
            -1,
        ),
        rename_gate(old(ds).letters(), buf@, perm) is None && r == 0 ==> {
            &&& old(ds).dir_at(request_parent(buf@)) matches Some((i, pc))
            &&& old(ds).list@[i].fat.patched(
                old(ds).disk(i),
                final(ds).disk(i),
                pc,
                request_sn(buf@),
                entry_fn(Some(rename_sn(buf@))),
            )
        },
{
    let (full, next) = match read_path(buf, 0) {
        Some(x) => x,
        None => {
            proof {
                assert(old(ds).same_except(ds, -1));
            }
            return 1;
        },
    };
    let (newname, _) = match read_path(buf, next) {
        Some(x) => x,
        None => {
            proof {
                assert(old(ds).same_except(ds, -1));
            }
            return 1;
        },
    };
    let root = match split_drive(full.as_slice()) {
        Some((_, k)) => k == full.len(),
        None => false,
    };
    if root {
        proof {
            assert(old(ds).same_except(ds, -1));
        }
        return 2;
    }
    let (parent, oldname) = split_parent(full.as_slice());
    let (old_sn, new_sn) = match (ds.resolve(parent.as_slice()), short_name_83(oldname.as_slice()), short_name_83(newname.as_slice())) {
        (Some(_), Some(a), Some(b)) => (a, b),
        _ => {
            proof {
                assert(old(ds).same_except(ds, -1));
            }
            return 1;
        },
    };
    if is_critical(full.as_slice()) && perm != 1 {
        proof {
            assert(old(ds).same_except(ds, -1));
        }
        return 2;
    }
    let (i, pc) = match open_dir(ds, parent.as_slice()) {
        Some(x) => x,
        None => return 1,
    };
    let ghost mid = *ds;
    assert(mid.disk(i as int) == old(ds).disk(i as int));
    assert(mid.list@[i as int].fat == old(ds).list@[i as int].fat);
    let drive = &mut ds.list[i];
    assert(drive.fat.wf());
    let r = patch_entry(&drive.fat, &mut drive.dev, pc, old_sn, Some(new_sn));
    proof {
        assert(mid.same_except(ds, i as int));
        lemma_same_trans(old(ds), &mid, ds, i as int);
    }
    r
}

} // verus!

verus! {

/// The answer a write request gets before the disk is touched (request: the path, a
/// four-byte length, then the data): 1 when the path or the data is missing, the data is over
/// 1 000 000 bytes, the parent resolves to no drive or the name has no 8.3 form; 2 when the
/// user may not write (`perm` 3 and up) or the path is one the system needs.
pub open spec fn write_gate(letters: Seq<u8>, buf: Seq<u8>, perm: u32) -> Option<u64> {
    match path_at(buf, 0) {
        None => Some(1),
        Some((full, next)) => if next + 4 > buf.len() {
            Some(1)
        } else {
            let dlen = le32(buf, next);
            let (parent, name) = parent_spec(full);
            if next + 4 + dlen > buf.len() || dlen > 1_000_000 {
                Some(1)
            } else if perm >= 3 || critical(full) {
                Some(2)
            } else if resolve_spec(letters, parent) is None || short_name_spec(name) is None {
                Some(1)
            } else {
                None
            }
        },
    }
}

/// The data a write request carries.
pub open spec fn write_data(buf: Seq<u8>) -> Seq<u8> {
    match path_at(buf, 0) {
        Some((_, next)) => buf.subrange(next + 4, next + 4 + le32(buf, next)),
        None => Seq::empty(),
    }
}

impl<D: BlockDevice> Drives<D> {
    /// Whether, in `other`, the device of the drive that `dir` resolves to holds what a disk
    /// `mid` held with the live entry named `sn` of that directory given the size of `data` and
    /// a first cluster `first` (none for empty data, a cluster from 3 on otherwise), where on
    /// `mid` the chain from `first`, cut to that size, holds `data` (on a volume laid out as a
    /// formatter lays it out).
    pub open spec fn stored_after(&self, other: &Self, dir: Seq<u8>, sn: Seq<u8>, data: Seq<u8>) -> bool {
        match self.dir_at(dir) {
            Some((i, pc)) => exists|mid: Disk, first: u32|
                #[trigger] self.list@[i].fat.patched(mid, other.disk(i), pc, sn, meta_fn(data.len() as u32, first))
                    && (data.len() == 0 ==> first == 0) && (data.len() > 0 ==> first >= 3)
                    && (data.len() > 0 && self.list@[i].fat.regions_ok() ==> self.list@[i].fat.file_data(
                    mid,
                    (DirInfo { name: Seq::empty(), is_dir: false, size: data.len() as u32, first_cluster: first, parent_cluster: pc }),
                ) == Some(data)),
            None => false,
        }
    }

    /// Whether, in `other`, the device of the drive that `dir` resolves to holds what some
    /// earlier state of it held with the live entry named `sn` of that directory given the
    /// size `size` and a first cluster: none for an empty file, a cluster from 3 on otherwise.
    pub open spec fn sized_after(&self, other: &Self, dir: Seq<u8>, sn: Seq<u8>, size: u32) -> bool {
        match self.dir_at(dir) {
            Some((i, pc)) => exists|mid: Disk, first: u32|
                #[trigger] self.list@[i].fat.patched(mid, other.disk(i), pc, sn, meta_fn(size, first))
                    && (size == 0 ==> first == 0) && (size > 0 ==> first >= 3),
            None => false,
        }
    }
}

/// The parent, name, 8.3 name and data a write request names, or the answer it gets before
/// the disk is touched.
fn write_target<D: BlockDevice>(ds: &Drives<D>, buf: &[u8], perm: u32) -> (r: Result<(Vec<u8>, Vec<u8>, [u8; 11], Vec<u8>), u64>)
    ensures
        match r {
            Ok((parent, name, sn, data)) => write_gate(ds.letters(), buf@, perm) is None && parent@
                == request_parent(buf@) && name@ == parent_spec(request_path(buf@)->Some_0).1 && sn@
                == request_sn(buf@) && data@ == write_data(buf@) && data@.len() <= 1_000_000,
            Err(c) => write_gate(ds.letters(), buf@, perm) == Some(c),
        },
{
    let (full, next) = match read_path(buf, 0) {
        Some(x) => x,
        None => return Err(1),
    };
    if buf.len() - next < 4 {
        return Err(1);
    }
    let dlen = get_le32(buf, next) as usize;
    if buf.len() - next - 4 < dlen {
        return Err(1);
    }
    if dlen > 1_000_000 {
        return Err(1);
    }
    if perm >= 3 || is_critical(full.as_slice()) {
        return Err(2);
    }
    let data = slice_of(buf, next + 4, next + 4 + dlen);
    let (parent, name) = split_parent(full.as_slice());
    let sn = match (ds.resolve(parent.as_slice()), short_name_83(name.as_slice())) {
        (Some(_), Some(sn)) => sn,
        _ => return Err(1),
    };
    Ok((parent, name, sn, data))
}

/// `n` bytes of `data` from `base` on, zero bytes past its end.
pub open spec fn chunk(data: Seq<u8>, base: int, n: nat) -> Seq<u8> {
    Seq::new(n, |k: int| if base + k < data.len() { data[base + k] } else { 0u8 })
}

/// Writes cluster `c` with the bytes of `data` from `base` on, zero padded.
fn write_piece<D: BlockDevice>(fat: &Fat32, dev: &mut D, c: u32, data: &[u8], base: usize) -> (r: Result<(), ()>)
    requires
        fat.wf(),
        2 <= c,
        base < data@.len(),
        data@.len() <= 1_000_000,
    ensures
        r is Ok ==> disk_of(final(dev)) == fat.cluster_put(
            disk_of(old(dev)),
            c,
            chunk(data@, base as int, fat.cluster_bytes()),
        ),
        healthy(old(dev), fat.bytes_per_sector as int) ==> r is Ok && healthy(final(dev), fat.bytes_per_sector as int),
{
    let bps = fat.bytes_per_sector as usize;
    let spc = fat.sectors_per_cluster as usize;
    let len = data.len();
    assert(spc * bps <= 0xFF * 0xFFFF) by (nonlinear_arith)
        requires
            spc <= 0xFF,
            bps <= 0xFFFF,
    ;
    let lba = fat.cluster_to_lba(c);
    let mut s: usize = 0;
    let mut off = base;
    while s < spc
        invariant
            fat.wf(),
            bps == fat.bytes_per_sector,
            spc == fat.sectors_per_cluster,
            len == data@.len(),
            lba <= 0x1_0000_0000 * 0x101,
            s <= spc,
            off == base + s * bps,
            base < len,
            len <= 1_000_000,
            s * bps <= spc * bps,
            spc * bps <= 0xFF * 0xFFFF,
            bps <= 0xFFFF,
            spc <= 0xFF,
            lba == fat.lba_of(c),
            disk_of(dev) == put_blocks(
                disk_of(old(dev)),
                lba as int,
                chunk(data@, base as int, fat.cluster_bytes()),
                bps as nat,
                s as nat,
            ),
            healthy(old(dev), fat.bytes_per_sector as int) ==> healthy(dev, fat.bytes_per_sector as int),
        decreases spc - s,
    {
        let mut sec = zeroes(bps);
        if off < len {
            let end = if len - off < bps { len } else { off + bps };
            let piece = slice_of(data, off, end);
            put_bytes(&mut sec, 0, piece.as_slice());
        }
        proof {
            let whole = chunk(data@, base as int, fat.cluster_bytes());
            assert(fat.cluster_bytes() == spc * bps);
            assert((s + 1) * bps <= spc * bps) by (nonlinear_arith)
                requires
                    s < spc,
            ;
            assert((s + 1) * bps == s * bps + bps) by (nonlinear_arith);
            assert(sec@ =~= whole.subrange(s * bps, (s + 1) * bps as int));
        }
        if write_sector(dev, lba + s as u64, sec.as_slice()).is_err() {
            return Err(());
        }
        assert((s + 1) * bps == s * bps + bps) by (nonlinear_arith);
        assert((s + 1) * bps <= spc * bps) by (nonlinear_arith)
            requires
                s < spc,
        ;
        s = s + 1;
        off = off + bps;
    }
    assert(disk_of(dev) == put_blocks(
        disk_of(old(dev)),
        fat.lba_of(c),
        chunk(data@, base as int, fat.cluster_bytes()),
        fat.bytes_per_sector as nat,
        fat.sectors_per_cluster as nat,
    ));
    Ok(())
}

/// Whether the clusters `cs` hold, on `disk`, `data` in pieces of the volume's cluster size,
/// linked: each cluster is one the free-cluster search can hand out, none twice, each FAT
/// entry but the last names the next cluster, and the `i`-th cluster holds the `i`-th piece
/// (the last one padded with zeros).
#[verifier::opaque]
pub open spec fn run_body(fat: Fat32, top: int, disk: Disk, cs: Seq<u32>, data: Seq<u8>) -> bool {
    let cb = fat.cluster_bytes();
    &&& forall|i: int| 0 <= i < cs.len() ==> 3 <= #[trigger] cs[i] < top
    &&& forall|i: int, j: int| 0 <= i < j < cs.len() ==> cs[i] != cs[j]
    &&& forall|i: int| 0 <= i < cs.len() - 1 ==> fat.fat_entry(disk, #[trigger] cs[i]) == cs[i + 1]
    &&& forall|i: int| 0 <= i < cs.len() ==> fat.cluster_data(disk, #[trigger] cs[i]) == chunk(data, i * cb, cb)
}

/// Whether `cs` is, on `disk`, a chain holding `data` (see `run_body`) whose last cluster
/// ends it.
#[verifier::opaque]
pub open spec fn holds_run(fat: Fat32, top: int, disk: Disk, cs: Seq<u32>, data: Seq<u8>) -> bool {
    &&& run_body(fat, top, disk, cs, data)
    &&& cs.len() > 0 ==> fat.fat_entry(disk, cs.last()) == 0x0FFF_FFFF
}

/// Whether the first FAT covers every cluster below `top`, blocks are at least 512 bytes,
/// and every cluster below `top` is a cluster number, not an end-of-chain mark.
pub open spec fn fat_covers(fat: Fat32, top: int) -> bool {
    &&& fat.fat_size_sectors >= 1
    &&& fat.bytes_per_sector >= 512
    &&& top * 4 <= fat.fat_size_sectors * fat.bytes_per_sector
    &&& top <= 0x0FFF_FFF0
}

/// A cluster below a covered `top` has its entry in the first FAT.
pub proof fn lemma_top_fits(fat: Fat32, top: int, c: u32)
    requires
        fat_covers(fat, top),
        c < top,
    ensures
        c as int * 4 < fat.fat_size_sectors * fat.bytes_per_sector,
        c < 0x4000_0000,
{
}

/// The free-cluster search covers only clusters of the first FAT.
pub proof fn lemma_search_total_covers(fat: Fat32)
    requires
        fat.wf(),
        fat.fat_size_sectors >= 1,
        fat.bytes_per_sector >= 512,
    ensures
        fat_covers(fat, search_total(fat)),
{
    let bps = fat.bytes_per_sector as int;
    let q = bps / 4;
    assert(bps == 4 * q);
    assert(fat.fat_size_sectors as int * q >= 128) by (nonlinear_arith)
        requires
            fat.fat_size_sectors >= 1,
            q >= 128,
    ;
    assert(search_total(fat) <= fat.fat_size_sectors as int * q);
    assert(search_total(fat) * 4 <= fat.fat_size_sectors * bps) by (nonlinear_arith)
        requires
            search_total(fat) <= fat.fat_size_sectors as int * q,
            bps == 4 * q,
    ;
}

/// A FAT write to a cluster outside a run, or to its last cluster, keeps the run's body;
/// the written entry reads back and every other entry stays.
pub proof fn lemma_run_fat_put(fat: Fat32, top: int, d: Disk, d2: Disk, cs: Seq<u32>, data: Seq<u8>, c: u32, v: u32)
    requires
        d2 == fat.fat_put(d, c, v),
        fat.wf(),
        fat.regions_ok(),
        fat.bytes_per_sector >= 512,
        fat_covers(fat, top),
        run_body(fat, top, d, cs, data),
        c < top,
        d(fat.fat_lba(c)).len() == fat.bytes_per_sector,
        !cs.contains(c) || (cs.len() > 0 && c == cs.last()),
    ensures
        run_body(fat, top, d2, cs, data),
        fat.fat_entry(d2, c) == v % 0x1000_0000,
        forall|x: u32| x < top && x != c ==> #[trigger] fat.fat_entry(d2, x) == fat.fat_entry(d, x),
{
    reveal(run_body);
    reveal(holds_run);
    lemma_top_fits(fat, top, c);
    lemma_fat_read_after_write(fat, d, c, v);
    assert forall|x: u32| x < top && x != c implies #[trigger] fat.fat_entry(d2, x) == fat.fat_entry(d, x) by {
        lemma_top_fits(fat, top, x);
        lemma_fat_write_keeps_others(fat, d, c, v, x);
    }
    assert forall|i: int| 0 <= i < cs.len() implies fat.cluster_data(d2, #[trigger] cs[i]) == chunk(data, i * fat.cluster_bytes(), fat.cluster_bytes()) by {
        lemma_fat_put_keeps_cluster(fat, d, c, v, cs[i]);
    }
    assert forall|i: int| 0 <= i < cs.len() - 1 implies fat.fat_entry(d2, #[trigger] cs[i]) == cs[i + 1] by {
        if cs[i] == c {
            assert(cs.last() == cs[cs.len() - 1]);
        }
    }
}

/// Writing a cluster outside a run keeps the run and every FAT entry.
pub proof fn lemma_run_cluster_put(fat: Fat32, top: int, d: Disk, d2: Disk, cs: Seq<u32>, data: Seq<u8>, c: u32, piece: Seq<u8>)
    requires
        d2 == fat.cluster_put(d, c, piece),
        fat.wf(),
        fat.regions_ok(),
        fat.bytes_per_sector >= 512,
        fat_covers(fat, top),
        run_body(fat, top, d, cs, data),
        c >= 2,
        !cs.contains(c),
    ensures
        run_body(fat, top, d2, cs, data),
        forall|x: u32| x < top ==> #[trigger] fat.fat_entry(d2, x) == fat.fat_entry(d, x),
{
    reveal(run_body);
    reveal(holds_run);
    assert forall|x: u32| x < top implies #[trigger] fat.fat_entry(d2, x) == fat.fat_entry(d, x) by {
        lemma_top_fits(fat, top, x);
        lemma_cluster_put_keeps_entry(fat, d, c, piece, x);
    }
    assert forall|i: int| 0 <= i < cs.len() implies fat.cluster_data(d2, #[trigger] cs[i]) == chunk(data, i * fat.cluster_bytes(), fat.cluster_bytes()) by {
        assert(cs[i] != c);
        lemma_cluster_write_keeps_others(fat, d, c, piece, cs[i]);
    }
}

/// A run read from its first cluster is itself, when it is short enough.
pub proof fn lemma_run_chain(fat: Fat32, top: int, d: Disk, cs: Seq<u32>, data: Seq<u8>, k: int, f: nat)
    requires
        holds_run(fat, top, d, cs, data),
        top <= 0x0FFF_FFF0,
        0 <= k < cs.len(),
        f >= cs.len() - k,
    ensures
        fat.chain(d, cs[k], f) == Some(cs.subrange(k, cs.len() as int)),
    decreases cs.len() - k,
{
    reveal(run_body);
    reveal(holds_run);
    if k == cs.len() - 1 {
        assert(cs.last() == cs[k]);
        assert(is_chain_end(fat.fat_entry(d, cs[k])));
        assert(fat.chain(d, fat.fat_entry(d, cs[k]), (f - 1) as nat) == Some(Seq::<u32>::empty()));
        assert(cs.subrange(k, cs.len() as int) =~= seq![cs[k]] + Seq::<u32>::empty());
    } else {
        lemma_run_chain(fat, top, d, cs, data, k + 1, (f - 1) as nat);
        assert(cs.subrange(k, cs.len() as int) =~= seq![cs[k]] + cs.subrange(k + 1, cs.len() as int));
    }
}

/// The bytes of the first `k` clusters of a run are the first `k` pieces of its data.
pub proof fn lemma_run_data(fat: Fat32, top: int, d: Disk, cs: Seq<u32>, data: Seq<u8>, k: int)
    requires
        holds_run(fat, top, d, cs, data),
        0 <= k <= cs.len(),
    ensures
        fat.chain_data(d, cs.subrange(0, k)) == chunk(data, 0, (k * fat.cluster_bytes()) as nat),
    decreases k,
{
    reveal(run_body);
    reveal(holds_run);
    let cb = fat.cluster_bytes();
    if k == 0 {
        assert(fat.chain_data(d, cs.subrange(0, 0)) =~= Seq::<u8>::empty());
        assert(chunk(data, 0, 0) =~= Seq::<u8>::empty());
        assert(k * cb == 0) by (nonlinear_arith)
            requires
                k == 0,
        ;
    } else {
        lemma_run_data(fat, top, d, cs, data, k - 1);
        let pre = cs.subrange(0, k);
        assert(pre.drop_last() =~= cs.subrange(0, k - 1));
        assert(pre.last() == cs[k - 1]);
        assert(fat.cluster_data(d, cs[k - 1]) == chunk(data, (k - 1) * cb, cb));
        assert(fat.chain_data(d, pre) == fat.chain_data(d, pre.drop_last()) + fat.cluster_data(d, pre.last()));
        assert((k - 1) * cb + cb == k * cb) by (nonlinear_arith);
        assert(chunk(data, 0, (k * cb) as nat) =~= chunk(data, 0, ((k - 1) * cb) as nat) + chunk(data, (k - 1) * cb, cb));
        assert(fat.chain_data(d, cs.subrange(0, k)) == chunk(data, 0, (k * cb) as nat));
    }
}

/// The first `n` bytes of `data` padded with zeros to `m >= n` bytes, cut back to `n`, are
/// `data`.
pub proof fn lemma_chunk_cut(data: Seq<u8>, m: nat)
    requires
        m >= data.len(),
    ensures
        truncated(chunk(data, 0, m), data.len() as int) == data,
{
    assert(truncated(chunk(data, 0, m), data.len() as int) =~= data);
}

/// Taking a free cluster (its entry set to the end mark, its blocks zeroed) keeps a run, and
/// the cluster is not in it.
pub proof fn lemma_run_take(fat: Fat32, top: int, d0: Disk, d1: Disk, cs: Seq<u32>, data: Seq<u8>, c: u32)
    requires
        d1 == fat.cluster_zeroed(fat.fat_put(d0, c, 0x0FFF_FFFF), c),
        fat.wf(),
        fat.regions_ok(),
        fat.bytes_per_sector >= 512,
        fat_covers(fat, top),
        holds_run(fat, top, d0, cs, data),
        fat.fat_entry(d0, c) == 0,
        3 <= c < top,
        d0(fat.fat_lba(c)).len() == fat.bytes_per_sector,
    ensures
        !cs.contains(c),
        holds_run(fat, top, d1, cs, data),
        run_body(fat, top, d1, cs, data),
        cs.len() > 0 ==> cs.last() < top,
        fat.fat_entry(d1, c) == 0x0FFF_FFFF,
{
    reveal(run_body);
    reveal(holds_run);
    assert(!cs.contains(c)) by {
        if cs.contains(c) {
            let i = choose|i: int| 0 <= i < cs.len() && cs[i] == c;
            if i < cs.len() - 1 {
                assert(fat.fat_entry(d0, cs[i]) == cs[i + 1]);
            } else {
                assert(cs.last() == cs[i]);
            }
        }
    }
    let dz = fat.fat_put(d0, c, 0x0FFF_FFFF);
    lemma_run_fat_put(fat, top, d0, dz, cs, data, c, 0x0FFF_FFFF);
    let zs = Seq::new(fat.cluster_bytes(), |i: int| 0u8);
    assert(d1 == fat.cluster_put(dz, c, zs));
    lemma_run_cluster_put(fat, top, dz, d1, cs, data, c, zs);
    lemma_top_fits(fat, top, c);
    if cs.len() > 0 {
        assert(cs.last() == cs[cs.len() - 1]);
        assert(cs.last() != c);
    }
}

/// Filling a cluster outside a run, the run's last cluster linked to it, extends the run's
/// body by it; every FAT entry stays.
pub proof fn lemma_run_extend(fat: Fat32, top: int, d2: Disk, d3: Disk, cs: Seq<u32>, data: Seq<u8>, c: u32, base: int)
    requires
        d3 == fat.cluster_put(d2, c, chunk(data, base, fat.cluster_bytes())),
        fat.wf(),
        fat.regions_ok(),
        fat.bytes_per_sector >= 512,
        fat_covers(fat, top),
        run_body(fat, top, d2, cs, data),
        cs.len() > 0 ==> fat.fat_entry(d2, cs.last()) == c,
        !cs.contains(c),
        3 <= c < top,
        base == cs.len() * fat.cluster_bytes(),
    ensures
        run_body(fat, top, d3, cs.push(c), data),
        forall|x: u32| x < top ==> #[trigger] fat.fat_entry(d3, x) == fat.fat_entry(d2, x),
{
    reveal(run_body);
    let cb = fat.cluster_bytes();
    let piece = chunk(data, base, cb);
    let cs1 = cs.push(c);
    lemma_run_cluster_put(fat, top, d2, d3, cs, data, c, piece);
    lemma_cluster_read_after_write(fat, d2, c, piece);
    assert(cs1.last() == c);
    assert forall|i: int| 0 <= i < cs1.len() implies 3 <= #[trigger] cs1[i] < top by {
        if i < cs.len() {
            assert(cs1[i] == cs[i]);
        }
    }
    assert forall|i: int, j: int| 0 <= i < j < cs1.len() implies cs1[i] != cs1[j] by {
        if j == cs.len() {
            assert(cs.contains(cs[i]));
        }
    }
    assert forall|i: int| 0 <= i < cs1.len() - 1 implies fat.fat_entry(d3, #[trigger] cs1[i]) == cs1[i + 1] by {
        assert(cs1[i] == cs[i]);
        if i == cs.len() - 1 {
            assert(cs.last() == cs[i]);
        } else {
            assert(fat.fat_entry(d2, cs[i]) == cs[i + 1]);
        }
    }
    assert forall|i: int| 0 <= i < cs1.len() implies fat.cluster_data(d3, #[trigger] cs1[i]) == chunk(data, i * cb, cb) by {
        if i < cs.len() {
            assert(cs1[i] == cs[i]);
        }
    }
}

/// Filling a cluster outside a run whose entry ends a chain, the run's last cluster linked to
/// it, extends the run by it.
pub proof fn lemma_run_fill(fat: Fat32, top: int, d2: Disk, d3: Disk, cs: Seq<u32>, data: Seq<u8>, c: u32, base: int)
    requires
        d3 == fat.cluster_put(d2, c, chunk(data, base, fat.cluster_bytes())),
        fat.wf(),
        fat.regions_ok(),
        fat.bytes_per_sector >= 512,
        fat_covers(fat, top),
        run_body(fat, top, d2, cs, data),
        cs.len() > 0 ==> fat.fat_entry(d2, cs.last()) == c,
        !cs.contains(c),
        3 <= c < top,
        fat.fat_entry(d2, c) == 0x0FFF_FFFF,
        base == cs.len() * fat.cluster_bytes(),
    ensures
        holds_run(fat, top, d3, cs.push(c), data),
{
    lemma_run_extend(fat, top, d2, d3, cs, data, c, base);
    reveal(holds_run);
    assert(cs.push(c).last() == c);
}

/// One step of storing: a cluster taken, linked after the run's last one and filled with
/// the next piece extends the run.
#[verifier::spinoff_prover]
pub proof fn lemma_run_step(fat: Fat32, top: int, d0: Disk, d1: Disk, d2: Disk, d3: Disk, cs: Seq<u32>, data: Seq<u8>, c: u32, prev: u32, base: int)
    requires
        fat.wf(),
        fat.regions_ok(),
        fat.bytes_per_sector >= 512,
        fat_covers(fat, top),
        holds_run(fat, top, d0, cs, data),
        fat.fat_entry(d0, c) == 0,
        3 <= c < top,
        d0(fat.fat_lba(c)).len() == fat.bytes_per_sector,
        d1 == fat.cluster_zeroed(fat.fat_put(d0, c, 0x0FFF_FFFF), c),
        cs.len() == 0 ==> d2 == d1,
        cs.len() > 0 ==> prev == cs.last() && d1(fat.fat_lba(prev)).len() == fat.bytes_per_sector
            && d2 == fat.fat_put(d1, prev, c),
        d3 == fat.cluster_put(d2, c, chunk(data, base, fat.cluster_bytes())),
        base == cs.len() * fat.cluster_bytes(),
    ensures
        holds_run(fat, top, d3, cs.push(c), data),
{
    lemma_run_take(fat, top, d0, d1, cs, data, c);
    if cs.len() > 0 {
        assert(cs.contains(prev)) by {
            assert(cs[cs.len() - 1] == prev);
        }
        lemma_run_fat_put(fat, top, d1, d2, cs, data, prev, c);
        assert(fat.fat_entry(d2, c) == 0x0FFF_FFFF);
    }
    lemma_run_fill(fat, top, d2, d3, cs, data, c, base);
}

/// Writing the end mark to the last cluster of a run keeps it a run.
pub proof fn lemma_run_close(fat: Fat32, top: int, d: Disk, d2: Disk, cs: Seq<u32>, data: Seq<u8>, prev: u32)
    requires
        fat.wf(),
        fat.regions_ok(),
        fat.bytes_per_sector >= 512,
        fat_covers(fat, top),
        holds_run(fat, top, d, cs, data),
        cs.len() > 0,
        prev == cs.last(),
        d(fat.fat_lba(prev)).len() == fat.bytes_per_sector,
        d2 == fat.fat_put(d, prev, 0x0FFF_FFFF),
    ensures
        holds_run(fat, top, d2, cs, data),
{
    reveal(holds_run);
    assert(cs.contains(prev)) by {
        assert(cs[cs.len() - 1] == prev);
    }
    assert(prev < top) by {
        reveal(run_body);
        assert(cs[cs.len() - 1] == prev);
    }
    lemma_run_fat_put(fat, top, d, d2, cs, data, prev, 0x0FFF_FFFF);
}

/// Stores `data` as the file named `name` (8.3 name `sn`) in the directory at `dir`: a
/// directory of that name is refused; a missing file gets a new entry; the old clusters are
/// released; the data goes to newly taken clusters, linked into a chain. Returns the first
/// cluster (0 for no data).
#[verifier::spinoff_prover]
#[verifier::rlimit(100)]
fn store_data<D: BlockDevice>(fat: &Fat32, dev: &mut D, hint: &mut u32, dir: u32, name: &[u8], sn: [u8; 11], data: &[u8]) -> (r: Result<u32, ()>)
    requires
        fat.wf(),
        data@.len() <= 1_000_000,
    ensures
        r matches Ok(first) ==> (data@.len() == 0 ==> first == 0) && (data@.len() > 0 ==> first >= 3),
        r is Ok && data@.len() > 0 && fat.regions_ok() ==> fat.file_data(
            disk_of(final(dev)),
            (DirInfo { name: Seq::empty(), is_dir: false, size: data@.len() as u32, first_cluster: r->Ok_0, parent_cluster: dir }),
        ) == Some(data@),
        healthy(old(dev), fat.bytes_per_sector as int) ==> healthy(final(dev), fat.bytes_per_sector as int),
        healthy(old(dev), fat.bytes_per_sector as int) && data@.len() == 0 ==> match fat.dir_entries(disk_of(old(dev)), dir) {
            Some(es) => match first_named(es, name@, 0) {
                Some(j) => r == (if es[j].is_dir { Err::<u32, ()>(()) } else { Ok::<u32, ()>(0) }),
                None => !fat.dir_full(disk_of(old(dev)), dir, 65) ==> r == Ok::<u32, ()>(0),
            },
            None => r is Err,
        },
        store_ready(*fat, disk_of(old(dev)), dir, name@, sn@, data@.len() as int) && healthy(old(dev), fat.bytes_per_sector as int)
            ==> r is Ok && !fat.name_absent(disk_of(final(dev)), dir, 65, sn@),
{
    let ghost dstart = disk_of(dev);
    let ghost good = store_ready(*fat, dstart, dir, name@, sn@, data@.len() as int) && healthy(old(dev), fat.bytes_per_sector as int);
    let entries = match fat.list_dir(dev, dir) {
        Ok(e) => e,
        Err(_) => return Err(()),
    };
    let old_first = match find_named(&entries, name, 0) {
        Some(j) => {
            if entries[j].is_dir {
                return Err(());
            }
            entries[j].first_cluster
        },
        None => {
            if insert_entry(fat, dev, dir, sn, 0x20, 0) != 0 {
                return Err(());
            }
            proof {
                if good {
                    lemma_first_put_named(*fat, dstart, disk_of(dev), dir, sn@, 0x20, 0);
                }
            }
            0
        },
    };
    let ghost dins = disk_of(dev);
    proof {
        if good {
            lemma_search_total_covers(*fat);
            lemma_ready_after_insert(*fat, dstart, dins, dir, name@, sn@, data@.len() as int);
        }
    }
    if old_first >= 2 {
        free_chain(fat, dev, old_first);
    }
    if data.len() == 0 {
        return Ok(0);
    }
    let bps = fat.bytes_per_sector as usize;
    let spc = fat.sectors_per_cluster as usize;
    assert(spc * bps <= 0xFF * 0xFFFF) by (nonlinear_arith)
        requires
            spc <= 0xFF,
            bps <= 0xFFFF,
    ;
    let cbytes = bps * spc;
    assert(cbytes >= 1) by (nonlinear_arith)
        requires
            cbytes == bps * spc,
            bps >= 1,
            spc >= 1,
    ;
    let len = data.len();
    let mut first: u32 = 0;
    let mut prev: u32 = 0;
    let mut base: usize = 0;
    let ghost mut cs: Seq<u32> = Seq::empty();
    proof {
        reveal(run_body);
        reveal(holds_run);
    }
    while base < len
        invariant
            fat.wf(),
            bps == fat.bytes_per_sector,
            spc == fat.sectors_per_cluster,
            cbytes == bps * spc,
            cbytes <= 0xFF * 0xFFFF,
            cbytes >= 1,
            len == data@.len(),
            len <= 1_000_000,
            base <= len + cbytes,
            first == 0 ==> base == 0,
            first != 0 ==> first >= 3 && 3 <= prev < 0x0FFF_FFF0,
            healthy(old(dev), fat.bytes_per_sector as int) ==> healthy(dev, fat.bytes_per_sector as int),
            cbytes == fat.cluster_bytes(),
            base == cs.len() * cbytes,
            (first == 0) == (cs.len() == 0),
            cs.len() > 0 ==> first == cs[0] && prev == cs.last() && fat.bytes_per_sector >= 512,
            cs.len() > 0 ==> (cs.len() - 1) * cbytes < len,
            fat.regions_ok() ==> holds_run(*fat, search_total(*fat), disk_of(dev), cs, data@),
            good ==> fat.regions_ok() && fat.bytes_per_sector >= 512 && fat_covers(*fat, search_total(*fat))
                && walk_covered(*fat, dins, dir) && walk_busy(*fat, dins, dir) && !fat.name_absent(dins, dir, 65, sn@),
            good ==> dir_kept(*fat, dins, disk_of(dev), dir),
            good ==> forall|i: int, j: int|
                0 <= i < cs.len() && 0 <= j < fat.dir_walk(dins, dir, 65).len() ==> #[trigger] fat.dir_walk(dins, dir, 65)[j]
                    != #[trigger] cs[i],
            good ==> free_set(*fat, disk_of(dev), search_total(*fat)).len() >= clusters_for(len as int, cbytes as int) - cs.len(),
            good ==> healthy(old(dev), fat.bytes_per_sector as int),
            good == (store_ready(*fat, dstart, dir, name@, sn@, data@.len() as int) && healthy(old(dev), fat.bytes_per_sector as int)),
            dstart == disk_of(old(dev)),
        decreases len + cbytes - base,
    {
        let ghost d0 = disk_of(dev);
        proof {
            if good {
                lemma_clusters_left(len as int, cbytes as int, cs.len() as int);
                lemma_free_set_pick(*fat, d0, search_total(*fat));
            }
        }
        let c = match alloc_cluster(fat, dev, hint) {
            Ok(c) => c,
            Err(_) => return Err(()),
        };
        let ghost d1 = disk_of(dev);
        if first == 0 {
            first = c;
        } else if fat.set_fat_entry(dev, prev, c).is_err() {
            return Err(());
        }
        let ghost d2 = disk_of(dev);
        if write_piece(fat, dev, c, data, base).is_err() {
            return Err(());
        }
        let ghost cs1 = cs.push(c);
        proof {
            if fat.regions_ok() {
                assert(fat.fat_entry(d0, c) == 0 && 3 <= c < search_total(*fat));
                lemma_search_total_covers(*fat);
                lemma_run_step(*fat, search_total(*fat), d0, d1, d2, disk_of(dev), cs, data@, c, prev, base as int);
            }
            if good {
                let top = search_total(*fat);
                if cs.len() > 0 {
                    lemma_run_take(*fat, top, d0, d1, cs, data@, c);
                    reveal(holds_run);
                    assert(cs.contains(prev)) by {
                        assert(cs[cs.len() - 1] == prev);
                    }
                    reveal(run_body);
                    assert(forall|j: int| 0 <= j < fat.dir_walk(dins, dir, 65).len() ==> #[trigger] fat.dir_walk(dins, dir, 65)[j] != cs[cs.len() - 1]);
                }
                lemma_alloc_step(*fat, top, dins, dir, d0, d2, disk_of(dev), c, prev, cs.len() > 0, chunk(data@, base as int, fat.cluster_bytes()));
            }
        }
        assert((cs.len() + 1) * cbytes == cs.len() * cbytes + cbytes) by (nonlinear_arith);
        assert(cs.len() * cbytes < len);
        prev = c;
        base = base + cbytes;
        proof {
            cs = cs1;
            assert(cs[0] == first);
        }
    }
    let ghost d3 = disk_of(dev);
    if fat.set_fat_entry(dev, prev, 0x0FFF_FFFF).is_err() {
        return Err(());
    }
    proof {
        if good {
            reveal(holds_run);
            reveal(run_body);
            assert(cs[cs.len() - 1] == prev);
            lemma_fat_put_keeps_dir(*fat, search_total(*fat), dins, d3, dir, prev, 0x0FFF_FFFF);
            lemma_kept_findable(*fat, dins, disk_of(dev), dir, sn@);
        }
        if fat.regions_ok() {
            assert(cs.contains(prev)) by {
                assert(cs[cs.len() - 1] == prev);
            }
            lemma_search_total_covers(*fat);
            lemma_run_close(*fat, search_total(*fat), d3, disk_of(dev), cs, data@, prev);
            assert((cs.len() - 1) * cbytes < 1_000_000);
            assert(cs.len() <= 100_000) by (nonlinear_arith)
                requires
                    (cs.len() - 1) * cbytes < 1_000_000,
                    cbytes == bps * spc,
                    bps >= 512,
                    spc >= 1,
            ;
            lemma_run_chain(*fat, search_total(*fat), disk_of(dev), cs, data@, 0, max_chain());
            assert(cs.subrange(0, cs.len() as int) =~= cs);
            lemma_run_data(*fat, search_total(*fat), disk_of(dev), cs, data@, cs.len() as int);
            lemma_chunk_cut(data@, (cs.len() * cbytes) as nat);
        }
    }
    Ok(first)
}

/// Writes a file (request: the path, a four-byte length, then the data), for a user with
/// permission level `perm`: creates the entry when needed, releases the old clusters, stores
/// the data in new ones and records its size. 0 on success, 1 on a failure, 2 when not
/// permitted.
#[verifier::spinoff_prover]
#[verifier::rlimit(50)]
pub fn write_file_call<D: BlockDevice>(ds: &mut Drives<D>, buf: &[u8], perm: u32) -> (r: u64)
    requires
        old(ds).wf(),
    ensures
        final(ds).wf(),
        old(ds).same_except(final(ds), old(ds).touched(request_parent(buf@))),
        r <= 2,
        r == 2 ==> write_gate(old(ds).letters(), buf@, perm) == Some(2u64),
        write_gate(old(ds).letters(), buf@, perm) matches Some(c) ==> r == c && old(ds).same_except(
            final(ds),
            -1,
        ) && final(ds).free_hint == old(ds).free_hint,
        write_gate(old(ds).letters(), buf@, perm) is None && r == 0 ==> old(ds).sized_after(
            final(ds),
            request_parent(buf@),
            request_sn(buf@),
            write_data(buf@).len() as u32,
        ),
        write_gate(old(ds).letters(), buf@, perm) is None && r == 0 ==> old(ds).stored_after(
            final(ds),
            request_parent(buf@),
            request_sn(buf@),
            write_data(buf@),
        ),
        old(ds).healthy() && write_gate(old(ds).letters(), buf@, perm) is None ==> match old(ds).dir_at(request_parent(buf@)) {
            Some((i, pc)) => store_ready(
                old(ds).list@[i].fat,
                old(ds).disk(i),
                pc,
                parent_spec(request_path(buf@)->Some_0).1,
                request_sn(buf@),
                write_data(buf@).len() as int,
            ) ==> r == 0,
            None => r == 1,
        },
{
    let (parent, name, sn, data) = match write_target(ds, buf, perm) {
        Ok(x) => x,
        Err(c) => {
            proof {
                assert(old(ds).same_except(ds, -1));
            }
            return c;
        },
    };
    let (i, pc) = match open_dir(ds, parent.as_slice()) {
        Some(x) => x,
        None => return 1,
    };
    let ghost mid = *ds;
    assert(mid.disk(i as int) == old(ds).disk(i as int));
    assert(mid.list@[i as int].fat == old(ds).list@[i as int].fat);
    let drive = &mut ds.list[i];
    assert(drive.fat.wf());
    assert(mid.healthy() ==> healthy(&drive.dev, drive.fat.bytes_per_sector as int));
    let first = match store_data(&drive.fat, &mut drive.dev, &mut ds.free_hint, pc, name.as_slice(), sn, data.as_slice()) {
        Ok(f) => f,
        Err(_) => {
            proof {
                assert(mid.same_except(ds, i as int));
                lemma_same_trans(old(ds), &mid, ds, i as int);
            }
            return 1;
        },
    };
    let ghost before = disk_of(&drive.dev);
    let size = data.len() as u32;
    let r = patch_meta(&drive.fat, &mut drive.dev, pc, sn, size, first);
    proof {
        assert(mid.same_except(ds, i as int));
        lemma_same_trans(old(ds), &mid, ds, i as int);
        if r == 0 {
            let rs = request_sn(buf@);
            let (i2, pc2) = old(ds).dir_at(request_parent(buf@))->Some_0;
            assert(i2 == i && pc2 == pc);
            assert(old(ds).list@[i2].fat.patched(before, ds.disk(i2), pc2, rs, meta_fn(size, first)));
            assert(old(ds).sized_after(ds, request_parent(buf@), request_sn(buf@), size));
            assert(old(ds).stored_after(ds, request_parent(buf@), request_sn(buf@), write_data(buf@)));
        }
    }
    r
}

} // verus!

verus! {

/// Letter of the system drive: the first drive's, `C` when there is none.
pub open spec fn system_of(letters: Seq<u8>) -> u8 {
    if letters.len() > 0 { letters[0] } else { 67u8 }
}

/// The answer a move request gets before the disk is touched (request: the path to move, then
/// the directory to move it into): 1 when either path is missing, when moving into itself or
/// below itself, when a directory resolves to no drive, or when the name has no 8.3 form; 3
/// across drives; 2 for a path the system needs; 0, with nothing to do, when it already is
/// in that directory (ASCII case ignored throughout).
pub open spec fn move_gate(letters: Seq<u8>, buf: Seq<u8>) -> Option<u64> {
    match path_at(buf, 0) {
        None => Some(1),
        Some((src, next)) => match path_at(buf, next) {
            None => Some(1),
            Some((dst, _)) => {
                let (sparent, name) = parent_spec(src);
                let pref = src.push(47);
                let sys = system_of(letters);
                if letter_spec(src, sys) != letter_spec(dst, sys) {
                    Some(3)
                } else if critical(src) {
                    Some(2)
                } else if eq_ignore_case(dst, src) {
                    Some(1)
                } else if dst.len() >= pref.len() && eq_ignore_case(dst.subrange(0, pref.len() as int), pref) {
                    Some(1)
                } else if eq_ignore_case(dst, sparent) {
                    Some(0)
                } else if resolve_spec(letters, sparent) is None || resolve_spec(letters, dst) is None
                    || short_name_spec(name) is None {
                    Some(1)
                } else {
                    None
                }
            },
        },
    }
}

/// The destination directory of a move request.
pub open spec fn move_dst(buf: Seq<u8>) -> Seq<u8> {
    match path_at(buf, 0) {
        Some((_, next)) => match path_at(buf, next) {
            Some((dst, _)) => dst,
            None => Seq::empty(),
        },
        None => Seq::empty(),
    }
}

impl<D: BlockDevice> Drives<D> {
    /// Whether drive `i` of `other`, for the drive `src_dir` resolves to, is that drive with the
    /// live entry named `sn` taken out of the directory `src_dir` names and its record put in
    /// a free record of the directory `dst` names on the same drive.
    pub open spec fn moved(&self, other: &Self, src_dir: Seq<u8>, dst: Seq<u8>, sn: Seq<u8>) -> bool {
        match (self.dir_at(src_dir), resolve_spec(self.letters(), dst)) {
            (Some((i, sp)), Some((_, k))) => match self.list@[i].fat.walk(
                self.disk(i),
                self.list@[i].fat.root_cluster,
                parts_from(dst.subrange(k, dst.len() as int), 0),
            ) {
                Some(dp) => exists|mid: Disk, raw: Seq<u8>|
                    #[trigger] self.list@[i].fat.taken(self.disk(i), mid, sp, sn, raw)
                        && self.list@[i].fat.put_new(mid, other.disk(i), dp, raw),
                None => false,
            },
            _ => false,
        }
    }
}

/// The source parent, source name, 8.3 name and destination a move request names, or the
/// answer it gets before the disk is touched.
fn move_target<D: BlockDevice>(ds: &Drives<D>, buf: &[u8]) -> (r: Result<(Vec<u8>, Vec<u8>, [u8; 11], Vec<u8>), u64>)
    ensures
        match r {
            Ok((sparent, name, sn, dst)) => move_gate(ds.letters(), buf@) is None && sparent@ == request_parent(
                buf@,
            ) && name@ == parent_spec(request_path(buf@)->Some_0).1 && sn@ == request_sn(buf@) && dst@
                == move_dst(buf@),
            Err(c) => move_gate(ds.letters(), buf@) == Some(c),
        },
{
    let (src, next) = match read_path(buf, 0) {
        Some(x) => x,
        None => return Err(1),
    };
    let (dst, _) = match read_path(buf, next) {
        Some(x) => x,
        None => return Err(1),
    };
    let sys = ds.system_letter();
    assert(sys == system_of(ds.letters()));
    if letter_of(src.as_slice(), sys) != letter_of(dst.as_slice(), sys) {
        return Err(3);
    }
    if is_critical(src.as_slice()) {
        return Err(2);
    }
    if bytes_eq_ignore_case(dst.as_slice(), src.as_slice()) {
        return Err(1);
    }
    let mut pref = copy_of(src.as_slice());
    pref.push(47);
    if dst.len() >= pref.len() {
        let head = slice_of(dst.as_slice(), 0, pref.len());
        if bytes_eq_ignore_case(head.as_slice(), pref.as_slice()) {
            return Err(1);
        }
    }
    let (sparent, name) = split_parent(src.as_slice());
    if bytes_eq_ignore_case(dst.as_slice(), sparent.as_slice()) {
        return Err(0);
    }
    let sn = match (ds.resolve(sparent.as_slice()), ds.resolve(dst.as_slice()), short_name_83(name.as_slice())) {
        (Some(_), Some(_), Some(sn)) => sn,
        _ => return Err(1),
    };
    Ok((sparent, name, sn, dst))
}

impl Fat32 {
    /// Whether the directory at `dir` can be read and holds an entry named `name` (ASCII
    /// case ignored).
    pub open spec fn holds_name(&self, disk: Disk, dir: u32, name: Seq<u8>) -> bool {
        match self.dir_entries(disk, dir) {
            Some(es) => first_named(es, name, 0) is Some,
            None => false,
        }
    }
}

/// Whether the directory at `dir` holds an entry named `name`; a directory that cannot be
/// read counts as holding none.
fn dir_has<D: BlockDevice>(fat: &Fat32, dev: &mut D, dir: u32, name: &[u8]) -> (r: bool)
    requires
        fat.wf(),
    ensures
        disk_of(final(dev)) == disk_of(old(dev)),
        r ==> fat.holds_name(disk_of(old(dev)), dir, name@),
        healthy(old(dev), fat.bytes_per_sector as int) ==> healthy(final(dev), fat.bytes_per_sector as int),
        healthy(old(dev), fat.bytes_per_sector as int) && fat.holds_name(disk_of(old(dev)), dir, name@) ==> r,
{
    match fat.list_dir(dev, dir) {
        Ok(es) => find_named(&es, name, 0).is_some(),
        Err(_) => false,
    }
}

/// Moves a file or directory into another directory of the same drive (request: the path,
/// then the destination directory). 0 on success (or when it is already there), 1 on a
/// failure or when the destination already holds that name, 2 for a path the system needs,
/// 3 across drives.
#[verifier::spinoff_prover]
#[verifier::rlimit(50)]
pub fn move_call<D: BlockDevice>(ds: &mut Drives<D>, buf: &[u8]) -> (r: u64)
    requires
        old(ds).wf(),
    ensures
        final(ds).wf(),
        final(ds).free_hint == old(ds).free_hint,
        old(ds).same_except(final(ds), old(ds).touched(request_parent(buf@))),
        r <= 3,
        move_gate(old(ds).letters(), buf@) matches Some(c) ==> r == c && old(ds).same_except(final(ds), -1),
        move_gate(old(ds).letters(), buf@) is None && r == 0 ==> old(ds).moved(
            final(ds),
            request_parent(buf@),
            move_dst(buf@),
            request_sn(buf@),
        ),
{
    let (sparent, name, sn, dst) = match move_target(ds, buf) {
        Ok(x) => x,
        Err(c) => {
            proof {
                assert(old(ds).same_except(ds, -1));
            }
            return c;
        },
    };
    let (_, dk) = match ds.resolve(dst.as_slice()) {
        Some(x) => x,
        None => return 1,
    };
    let dprest = slice_of(dst.as_slice(), dk, dst.len());
    let (i, sp) = match open_dir(ds, sparent.as_slice()) {
        Some(x) => x,
        None => return 1,
    };
    let ghost mid = *ds;
    assert(mid.disk(i as int) == old(ds).disk(i as int));
    assert(mid.list@[i as int].fat == old(ds).list@[i as int].fat);
    let drive = &mut ds.list[i];
    assert(drive.fat.wf());
    let ghost d0 = disk_of(&drive.dev);
    let dp = match walk_dir(&drive.fat, &mut drive.dev, dprest.as_slice()) {
        Ok(c) => c,
        Err(_) => {
            proof {
                assert(mid.same_except(ds, i as int));
                lemma_same_trans(old(ds), &mid, ds, i as int);
            }
            return 1;
        },
    };
    if dir_has(&drive.fat, &mut drive.dev, dp, name.as_slice()) {
        proof {
            assert(mid.same_except(ds, i as int));
            lemma_same_trans(old(ds), &mid, ds, i as int);
        }
        return 1;
    }
    let raw = match take_entry_raw(&drive.fat, &mut drive.dev, sp, sn) {
        Some(x) => x,
        None => {
            proof {
                assert(mid.same_except(ds, i as int));
                lemma_same_trans(old(ds), &mid, ds, i as int);
            }
            return 1;
        },
    };
    let ghost d1 = disk_of(&drive.dev);
    let r = insert_raw(&drive.fat, &mut drive.dev, dp, raw);
    proof {
        assert(mid.same_except(ds, i as int));
        lemma_same_trans(old(ds), &mid, ds, i as int);
        if r == 0 {
            let f = old(ds).list@[i as int].fat;
            assert(f.taken(d0, d1, sp, sn@, raw@));
            assert(f.put_new(d1, ds.disk(i as int), dp, raw@));
            assert(d0 == old(ds).disk(i as int));
            assert(f.taken(old(ds).disk(i as int), d1, sp, request_sn(buf@), raw@));
            assert(old(ds).moved(ds, request_parent(buf@), move_dst(buf@), request_sn(buf@)));
        }
    }
    r
}

} // verus!

verus! {

/// The answer a play request gets before the disk is touched: 1 when the request holds no
/// path or its parent resolves to no drive.
pub open spec fn play_gate(letters: Seq<u8>, buf: Seq<u8>) -> bool {
    match request_path(buf) {
        None => true,
        Some(full) => resolve_spec(letters, parent_spec(full).0) is None,
    }
}

/// Whether `p` is a prefix of `q`.
pub open spec fn prefix_of(p: Seq<u8>, q: Seq<u8>) -> bool {
    p.len() <= q.len() && q.subrange(0, p.len() as int) == p
}

/// Prefixes of prefixes are prefixes.
proof fn lemma_prefix_trans(a: Seq<u8>, b: Seq<u8>, c: Seq<u8>)
    requires
        prefix_of(a, b),
        prefix_of(b, c),
    ensures
        prefix_of(a, c),
{
    assert(c.subrange(0, a.len() as int) =~= c.subrange(0, b.len() as int).subrange(0, a.len() as int));
}

/// The first `s` blocks from `lba` begin the first `n`.
proof fn lemma_blocks_prefix(disk: Disk, lba: int, s: nat, n: nat)
    requires
        s <= n,
    ensures
        prefix_of(Fat32::blocks(disk, lba, s), Fat32::blocks(disk, lba, n)),
    decreases n,
{
    if s < n {
        lemma_blocks_prefix(disk, lba, s, (n - 1) as nat);
        let a = Fat32::blocks(disk, lba, (n - 1) as nat);
        let b = Fat32::blocks(disk, lba, n);
        assert(b == a + disk((lba + (n - 1)) as u64));
        assert(b.subrange(0, a.len() as int) =~= a);
        lemma_prefix_trans(Fat32::blocks(disk, lba, s), a, b);
    } else {
        assert(Fat32::blocks(disk, lba, n).subrange(0, Fat32::blocks(disk, lba, n).len() as int) =~= Fat32::blocks(disk, lba, n));
    }
}

/// The data of the first `g` clusters of `cs` begins the data of all of them.
proof fn lemma_chain_data_prefix(fat: &Fat32, disk: Disk, cs: Seq<u32>, g: int)
    requires
        0 <= g <= cs.len(),
    ensures
        prefix_of(fat.chain_data(disk, cs.subrange(0, g)), fat.chain_data(disk, cs)),
    decreases cs.len(),
{
    if g == cs.len() {
        assert(cs.subrange(0, g) =~= cs);
        assert(fat.chain_data(disk, cs).subrange(0, fat.chain_data(disk, cs).len() as int) =~= fat.chain_data(disk, cs));
    } else {
        let d = cs.drop_last();
        lemma_chain_data_prefix(fat, disk, d, g);
        assert(d.subrange(0, g) =~= cs.subrange(0, g));
        let a = fat.chain_data(disk, d);
        let b = fat.chain_data(disk, cs);
        assert(b == a + fat.cluster_data(disk, cs.last()));
        assert(b.subrange(0, a.len() as int) =~= a);
        lemma_prefix_trans(fat.chain_data(disk, cs.subrange(0, g)), a, b);
    }
}

/// What is read along the first `g` clusters of `cs`, then the first `s` blocks of the next
/// one, begins what is read along all of `cs`.
proof fn lemma_read_prefix(fat: &Fat32, disk: Disk, cs: Seq<u32>, g: int, s: nat)
    requires
        0 <= g < cs.len(),
        s <= fat.sectors_per_cluster,
    ensures
        prefix_of(
            fat.chain_data(disk, cs.subrange(0, g)) + Fat32::blocks(disk, fat.lba_of(cs[g]), s),
            fat.chain_data(disk, cs),
        ),
{
    let pre = cs.subrange(0, g + 1);
    assert(pre.drop_last() =~= cs.subrange(0, g));
    assert(pre.last() == cs[g]);
    let a = fat.chain_data(disk, cs.subrange(0, g));
    let bs = Fat32::blocks(disk, fat.lba_of(cs[g]), s);
    let full = Fat32::blocks(disk, fat.lba_of(cs[g]), fat.sectors_per_cluster as nat);
    lemma_blocks_prefix(disk, fat.lba_of(cs[g]), s, fat.sectors_per_cluster as nat);
    assert(fat.chain_data(disk, pre) == a + full);
    assert((a + full).subrange(0, (a + bs).len() as int) =~= a + bs);
    lemma_chain_data_prefix(fat, disk, cs, g + 1);
    lemma_prefix_trans(a + bs, a + full, fat.chain_data(disk, cs));
}

/// Copies up to `limit` bytes of the chain that starts at `first` into `pcm`, block by block,
/// following at most 200 001 clusters; stops early when a FAT entry cannot be read. Returns
/// the number of bytes copied, or `None` when a data block cannot be read.
fn copy_chain<D: BlockDevice>(fat: &Fat32, dev: &mut D, first: u32, limit: usize, pcm: &mut Vec<u8>) -> (r: Option<usize>)
    requires
        fat.wf(),
        limit <= old(pcm)@.len(),
    ensures
        disk_of(final(dev)) == disk_of(old(dev)),
        final(pcm)@.len() == old(pcm)@.len(),
        r matches Some(n) ==> n <= limit,
        r matches Some(n) ==> ({
            let data = fat.chain_data(disk_of(old(dev)), fat.dir_walk(disk_of(old(dev)), first, 200_001));
            n <= data.len() && final(pcm)@ == splice(old(pcm)@, 0, data.subrange(0, n as int))
        }),
        healthy(old(dev), fat.bytes_per_sector as int) ==> r is Some && healthy(final(dev), fat.bytes_per_sector as int),
        healthy(old(dev), fat.bytes_per_sector as int) ==> ({
            let data = fat.chain_data(disk_of(old(dev)), fat.dir_walk(disk_of(old(dev)), first, 200_001));
            let n = if limit < data.len() { limit as int } else { data.len() as int };
            r == Some(n as usize) && final(pcm)@ == splice(old(pcm)@, 0, data.subrange(0, n))
        }),
{
    let ghost disk = disk_of(dev);
    let ghost hl = healthy(old(dev), fat.bytes_per_sector as int);
    let ghost walk = fat.dir_walk(disk, first, 200_001);
    let ghost data = fat.chain_data(disk, walk);
    let bps = fat.bytes_per_sector as usize;
    let spc = fat.sectors_per_cluster;
    let mut sec = zeroes(bps);
    let mut c = first;
    let mut off: usize = 0;
    let mut guard: u32 = 0;
    proof {
        assert(walk.subrange(0, walk.len() as int) =~= walk);
        assert(walk.subrange(0, 0) =~= Seq::<u32>::empty());
        assert(old(pcm)@.subrange(0, 0) =~= Seq::<u8>::empty());
        assert(splice(old(pcm)@, 0, data.subrange(0, 0)) =~= old(pcm)@);
    }
    while off < limit && c >= 2 && c < 0x0FFF_FFF8
        invariant
            fat.wf(),
            bps == fat.bytes_per_sector,
            spc == fat.sectors_per_cluster,
            disk_of(dev) == disk,
            disk == disk_of(old(dev)),
            limit <= pcm@.len(),
            pcm@.len() == old(pcm)@.len(),
            sec@.len() == bps,
            off <= limit,
            guard <= 200_000,
            hl == healthy(old(dev), fat.bytes_per_sector as int),
            hl ==> healthy(dev, fat.bytes_per_sector as int),
            walk == fat.dir_walk(disk, first, 200_001),
            data == fat.chain_data(disk, walk),
            guard <= walk.len(),
            fat.dir_walk(disk, c, (200_001 - guard) as nat) == walk.subrange(guard as int, walk.len() as int),
            off <= data.len() && pcm@ == splice(old(pcm)@, 0, data.subrange(0, off as int)),
            off < limit ==> off == fat.chain_data(disk, walk.subrange(0, guard as int)).len(),
        decreases 200_000 - guard,
    {
        proof {
            assert(fat.dir_walk(disk, c, (200_001 - guard) as nat) == seq![c] + fat.dir_walk(
                disk,
                fat.fat_entry(disk, c),
                (200_000 - guard) as nat,
            ));
            assert(walk.subrange(guard as int, walk.len() as int)[0] == walk[guard as int]);
        }
        let lba = fat.cluster_to_lba(c);
        let mut s: u32 = 0;
        while s < spc && off < limit
            invariant
                fat.wf(),
                bps == fat.bytes_per_sector,
                spc == fat.sectors_per_cluster,
                disk_of(dev) == disk,
                disk == disk_of(old(dev)),
                limit <= pcm@.len(),
                pcm@.len() == old(pcm)@.len(),
                sec@.len() == bps,
                off <= limit,
                lba <= 0x1_0000_0000 * 0x101,
                lba == fat.lba_of(c),
                s <= spc,
                hl == healthy(old(dev), fat.bytes_per_sector as int),
                hl ==> healthy(dev, fat.bytes_per_sector as int),
                walk == fat.dir_walk(disk, first, 200_001),
                data == fat.chain_data(disk, walk),
                guard < walk.len(),
                walk[guard as int] == c,
                off <= data.len() && pcm@ == splice(old(pcm)@, 0, data.subrange(0, off as int)),
                off < limit ==> off == (fat.chain_data(disk, walk.subrange(0, guard as int))
                    + Fat32::blocks(disk, lba as int, s as nat)).len(),
            decreases spc - s,
        {
            if read_sector(dev, lba + s as u64, &mut sec).is_err() {
                return None;
            }
            let n = if limit - off < bps { limit - off } else { bps };
            let piece = slice_of(sec.as_slice(), 0, n);
            let ghost pre = fat.chain_data(disk, walk.subrange(0, guard as int)) + Fat32::blocks(disk, lba as int, s as nat);
            proof {
                lemma_read_prefix(fat, disk, walk, guard as int, (s + 1) as nat);
                let next = fat.chain_data(disk, walk.subrange(0, guard as int)) + Fat32::blocks(disk, lba as int, (s + 1) as nat);
                assert(Fat32::blocks(disk, lba as int, (s + 1) as nat) == Fat32::blocks(disk, lba as int, s as nat)
                    + disk((lba + s) as u64));
                assert(next =~= pre + disk((lba + s) as u64));
                assert(sec@ == disk((lba + s) as u64));
                assert(next.len() == off + bps);
                assert(data.subrange(off as int, off + n) =~= sec@.subrange(0, n as int)) by {
                    assert(data.subrange(0, next.len() as int) == next);
                    assert forall|k: int| 0 <= k < n implies data.subrange(off as int, off + n)[k] == sec@.subrange(0, n as int)[k] by {
                        assert(data[off + k] == data.subrange(0, next.len() as int)[off + k]);
                        assert(next[off + k] == sec@[k]);
                    }
                }
            }
            put_bytes(pcm, off, piece.as_slice());
            proof {
                assert(pcm@ =~= splice(old(pcm)@, 0, data.subrange(0, off + n)));
            }
            off = off + n;
            proof {
                if off < limit {
                    assert(n == bps);
                    assert(Fat32::blocks(disk, lba as int, (s + 1) as nat) == Fat32::blocks(disk, lba as int, s as nat)
                        + disk((lba + s) as u64));
                }
            }
            s = s + 1;
        }
        proof {
            if off < limit {
                let pre = walk.subrange(0, guard + 1);
                assert(pre.drop_last() =~= walk.subrange(0, guard as int));
                assert(pre.last() == c);
                assert(s == spc);
            }
        }
        let ghost was = c;
        c = match fat.next_cluster(dev, c) {
            Ok(v) => v,
            Err(_) => {
                return Some(off);
            },
        };
        proof {
            assert(fat.dir_walk(disk, was, (200_001 - guard) as nat) == seq![was] + fat.dir_walk(
                disk,
                c,
                (200_000 - guard) as nat,
            ));
            assert(walk.subrange(guard + 1, walk.len() as int) =~= walk.subrange(
                guard as int,
                walk.len() as int,
            ).subrange(1, walk.len() - guard));
        }
        guard = guard + 1;
        if guard > 200_000 {
            proof {
                lemma_dir_walk_len(fat, disk, first, 200_001);
                assert(walk.subrange(0, guard as int) =~= walk);
            }
            return Some(off);
        }
    }
    proof {
        if off < limit {
            assert(walk.len() == guard);
            assert(walk.subrange(0, guard as int) =~= walk);
        }
    }
    Some(off)
}

/// A chain that ends within `f` links is what a search that may follow `n >= f` clusters
/// visits.
proof fn lemma_chain_walk(fat: &Fat32, disk: Disk, c: u32, f: nat, n: nat)
    requires
        fat.chain(disk, c, f) is Some,
        f <= n,
    ensures
        fat.dir_walk(disk, c, n) == fat.chain(disk, c, f)->Some_0,
    decreases f,
{
    if !is_chain_end(c) {
        lemma_chain_walk(fat, disk, fat.fat_entry(disk, c), (f - 1) as nat, (n - 1) as nat);
    }
}

/// Loads an audio file into the sample buffer `pcm` (request: its path at the start of
/// `buf`): as much of the file as fits. Returns 0 and the number of bytes loaded, which is
/// then played; 1 and 0 when the request fails or nothing could be loaded.
#[verifier::spinoff_prover]
#[verifier::rlimit(50)]
pub fn play_file_call<D: BlockDevice>(ds: &mut Drives<D>, buf: &[u8], pcm: &mut Vec<u8>) -> (r: (u64, usize))
    requires
        old(ds).wf(),
    ensures
        final(ds).wf(),
        final(ds).free_hint == old(ds).free_hint,
        old(ds).same_except(final(ds), -1),
        final(pcm)@.len() == old(pcm)@.len(),
        r.0 == 0 || r.0 == 1,
        r.0 == 0 <==> r.1 > 0,
        play_gate(old(ds).letters(), buf@) ==> r == (1u64, 0usize) && final(pcm)@ == old(pcm)@,
        r.0 == 0 ==> {
            &&& old(ds).lookup(request_path(buf@)->Some_0, 2) matches Some((i, e))
            &&& e.first_cluster >= 2 && e.size > 0
            &&& r.1 <= e.size && r.1 <= old(pcm)@.len()
            &&& {
                let fat = old(ds).list@[i].fat;
                let d = old(ds).disk(i);
                let data = fat.chain_data(d, fat.dir_walk(d, e.first_cluster, 200_001));
                r.1 <= data.len() && final(pcm)@ == splice(old(pcm)@, 0, data.subrange(0, r.1 as int))
            }
            &&& old(ds).list@[i].fat.file_data(old(ds).disk(i), e) matches Some(fd) ==> final(pcm)@.subrange(0, r.1 as int)
                == fd.subrange(0, r.1 as int)
        },
{
    let (full, _) = match read_path(buf, 0) {
        Some(x) => x,
        None => {
            proof {
                assert(old(ds).same_except(ds, -1));
            }
            return (1, 0);
        },
    };
    let (parent, name) = split_parent(full.as_slice());
    if ds.resolve(parent.as_slice()).is_none() {
        proof {
            assert(old(ds).same_except(ds, -1));
        }
        return (1, 0);
    }
    let (i, dir) = match open_dir(ds, parent.as_slice()) {
        Some(x) => x,
        None => return (1, 0),
    };
    let ghost mid = *ds;
    assert(mid.disk(i as int) == old(ds).disk(i as int));
    assert(mid.list@[i as int].fat == old(ds).list@[i as int].fat);
    let drive = &mut ds.list[i];
    assert(drive.fat.wf());
    let entries = match drive.fat.list_dir(&mut drive.dev, dir) {
        Ok(e) => e,
        Err(_) => {
            proof {
                assert(mid.same_except(ds, -1));
                lemma_same_trans(old(ds), &mid, ds, -1);
            }
            return (1, 0);
        },
    };
    let j = match find_named(&entries, name.as_slice(), 2) {
        Some(j) => j,
        None => {
            proof {
                assert(mid.same_except(ds, -1));
                lemma_same_trans(old(ds), &mid, ds, -1);
            }
            return (1, 0);
        },
    };
    let e = &entries[j];
    proof {
        let es = entries@.map_values(|e: DirEntry| e@);
        lemma_first_named_range(es, name@, 2);
        assert(es[j as int] == e@);
    }
    if e.first_cluster < 2 || e.size == 0 {
        proof {
            assert(mid.same_except(ds, -1));
            lemma_same_trans(old(ds), &mid, ds, -1);
        }
        return (1, 0);
    }
    let size = e.size as usize;
    let limit = if size < pcm.len() { size } else { pcm.len() };
    let got = copy_chain(&drive.fat, &mut drive.dev, e.first_cluster, limit, pcm);
    proof {
        assert(mid.same_except(ds, -1));
        lemma_same_trans(old(ds), &mid, ds, -1);
        let fat = old(ds).list@[i as int].fat;
        let d = old(ds).disk(i as int);
        if got is Some {
            let n = got->Some_0;
            if fat.chain(d, e.first_cluster, max_chain()) is Some {
                lemma_chain_walk(&fat, d, e.first_cluster, max_chain(), 200_001);
                let data = fat.chain_data(d, fat.dir_walk(d, e.first_cluster, 200_001));
                assert(pcm@.subrange(0, n as int) =~= data.subrange(0, n as int));
            }
        }
    }
    match got {
        Some(n) => if n == 0 {
            (1, 0)
        } else {
            (0, n)
        },
        None => (1, 0),
    }
}

} // verus!
