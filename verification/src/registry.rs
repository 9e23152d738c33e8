use vstd::prelude::*;
use crate::bytes::{bytes_eq, copy_of, slice_of, find_byte, first_index, lemma_first_index, lemma_first_index_range};
use crate::text::{trim, trim_range, parse_u32, parse_u32_range, decimal, push_decimal, utf8_valid};
use crate::bytes::{le16, get_le16, splice, put_bytes};
use vstd::string::StringSliceAdditionalSpecFns;

verus! {

/// A value stored in the registry.
pub enum RegData {
    U32(u32),
    Str(Vec<u8>),
    Bool(bool),
}

/// The mathematical content of a registry value.
pub ghost enum RegValue {
    U32(u32),
    Str(Seq<u8>),
    Bool(bool),
}

impl View for RegData {
    type V = RegValue;

    open spec fn view(&self) -> RegValue {
        match self {
            RegData::U32(v) => RegValue::U32(*v),
            RegData::Str(s) => RegValue::Str(s@),
            RegData::Bool(b) => RegValue::Bool(*b),
        }
    }
}

/// One `path = value` pair of the registry.
pub struct RegEntry {
    pub path: Vec<u8>,
    pub data: RegData,
}

impl View for RegEntry {
    type V = (Seq<u8>, RegValue);

    open spec fn view(&self) -> (Seq<u8>, RegValue) {
        (self.path@, self.data@)
    }
}

/// The system registry: an ordered list of entries and a flag telling whether it changed since
/// it was last loaded.
pub struct Registry {
    pub entries: Vec<RegEntry>,
    pub dirty: bool,
}

impl View for Registry {
    type V = Seq<(Seq<u8>, RegValue)>;

    open spec fn view(&self) -> Seq<(Seq<u8>, RegValue)> {
        self.entries@.map_values(|e: RegEntry| e@)
    }
}

/// Index of the first entry whose path is `p`.
pub open spec fn path_index(s: Seq<(Seq<u8>, RegValue)>, p: Seq<u8>) -> Option<int> {
    if exists|i: int| 0 <= i < s.len() && s[i].0 == p {
        Some(
            choose|i: int|
                0 <= i < s.len() && s[i].0 == p && forall|j: int| 0 <= j < i ==> s[j].0 != p,
        )
    } else {
        None
    }
}

/// Value of the first entry whose path is `p`.
pub open spec fn reg_lookup(s: Seq<(Seq<u8>, RegValue)>, p: Seq<u8>) -> Option<RegValue> {
    match path_index(s, p) {
        Some(i) => Some(s[i].1),
        None => None,
    }
}

/// The entries after setting `p` to `v`: the first entry with path `p` gets the new value, or a
/// new entry is added at the end.
pub open spec fn reg_set(s: Seq<(Seq<u8>, RegValue)>, p: Seq<u8>, v: RegValue) -> Seq<
    (Seq<u8>, RegValue),
> {
    match path_index(s, p) {
        Some(i) => s.update(i, (p, v)),
        None => s.push((p, v)),
    }
}

/// The entries after setting each pair of `items` in turn.
pub open spec fn reg_set_all(s: Seq<(Seq<u8>, RegValue)>, items: Seq<(Seq<u8>, RegValue)>) -> Seq<
    (Seq<u8>, RegValue),
>
    decreases items.len(),
{
    if items.len() == 0 {
        s
    } else {
        reg_set(
            reg_set_all(s, items.drop_last()),
            items.last().0,
            items.last().1,
        )
    }
}

/// Whether `pre` is a prefix of `s`.
pub open spec fn starts_with(s: Seq<u8>, pre: Seq<u8>) -> bool {
    pre.len() <= s.len() && s.subrange(0, pre.len() as int) == pre
}

/// The entries whose path starts with `pre`, in order.
pub open spec fn with_prefix(s: Seq<(Seq<u8>, RegValue)>, pre: Seq<u8>) -> Seq<
    (Seq<u8>, RegValue),
>
    decreases s.len(),
{
    if s.len() == 0 {
        s
    } else if starts_with(s.last().0, pre) {
        with_prefix(s.drop_last(), pre).push(s.last())
    } else {
        with_prefix(s.drop_last(), pre)
    }
}

/// The type tag written before a value: `u32`, `str` or `bool`.
pub open spec fn tag_of(v: RegValue) -> Seq<u8> {
    match v {
        RegValue::U32(_) => seq![117u8, 51u8, 50u8],
        RegValue::Str(_) => seq![115u8, 116u8, 114u8],
        RegValue::Bool(_) => seq![98u8, 111u8, 111u8, 108u8],
    }
}

/// The text of a value: decimal digits, the string itself, or `1`/`0`.
pub open spec fn value_text(v: RegValue) -> Seq<u8> {
    match v {
        RegValue::U32(n) => decimal(n as nat),
        RegValue::Str(s) => s,
        RegValue::Bool(b) => if b { seq![49u8] } else { seq![48u8] },
    }
}

/// `path=tag:value`, the text of one entry without its line break.
pub open spec fn line_body(e: (Seq<u8>, RegValue)) -> Seq<u8> {
    e.0 + seq![61u8] + tag_of(e.1) + seq![58u8] + value_text(e.1)
}

/// The text of the whole registry: one line per entry, each ending in a line break.
pub open spec fn serialized(s: Seq<(Seq<u8>, RegValue)>) -> Seq<u8>
    decreases s.len(),
{
    if s.len() == 0 {
        Seq::empty()
    } else {
        serialized(s.drop_last()) + line_body(s.last()) + seq![10u8]
    }
}

/// The value a tag and a value text stand for: `u32` reads a number (0 when it does not
/// parse), `bool` is true for `1`, any other tag keeps the text.
#[verifier::opaque]
pub open spec fn value_of(tip: Seq<u8>, val: Seq<u8>) -> RegValue {
    if tip == seq![117u8, 51u8, 50u8] {
        RegValue::U32(
            match parse_u32(val) {
                Some(n) => n,
                None => 0,
            },
        )
    } else if tip == seq![98u8, 111u8, 111u8, 108u8] {
        RegValue::Bool(val == seq![49u8])
    } else {
        RegValue::Str(val)
    }
}

/// The entry a trimmed line of text describes: text up to the first `=` is the path, text up
/// to the next `:` the tag, the rest the value. Lines without both separators give nothing.
pub open spec fn parse_line(l: Seq<u8>) -> Option<(Seq<u8>, RegValue)> {
    match first_index(l, 61u8) {
        None => None,
        Some(eq) => {
            let rest = l.subrange(eq + 1, l.len() as int);
            match first_index(rest, 58u8) {
                None => None,
                Some(c) => Some(
                    (
                        l.subrange(0, eq),
                        value_of(rest.subrange(0, c), rest.subrange(c + 1, rest.len() as int)),
                    ),
                ),
            }
        },
    }
}

/// End of the line that starts at `pos`: the position of the next line break, or the end.
#[verifier::opaque]
pub open spec fn line_end(t: Seq<u8>, pos: int) -> int {
    match first_index(t.subrange(pos, t.len() as int), 10u8) {
        Some(k) => pos + k,
        None => t.len() as int,
    }
}

/// The entries one line of text gives: none or one.
#[verifier::opaque]
pub open spec fn line_entries(l: Seq<u8>) -> Seq<(Seq<u8>, RegValue)> {
    match parse_line(trim(l)) {
        Some(e) => seq![e],
        None => Seq::empty(),
    }
}

/// Entries read from the text `t` from position `pos` on, line by line.
#[verifier::opaque]
pub open spec fn parse_from(t: Seq<u8>, pos: int) -> Seq<(Seq<u8>, RegValue)>
    decreases t.len() - pos,
{
    if pos < 0 || pos >= t.len() {
        Seq::empty()
    } else {
        let k = line_end(t, pos);
        proof {
            lemma_line_end(t, pos);
        }
        if k < t.len() {
            line_entries(t.subrange(pos, k)) + parse_from(t, k + 1)
        } else {
            line_entries(t.subrange(pos, k))
        }
    }
}

pub proof fn lemma_line_end(t: Seq<u8>, pos: int)
    requires
        0 <= pos <= t.len(),
    ensures
        pos <= line_end(t, pos) <= t.len(),
        forall|j: int| pos <= j < line_end(t, pos) ==> t[j] != 10u8,
        line_end(t, pos) < t.len() ==> t[line_end(t, pos)] == 10u8,
{
    reveal(line_end);
    let r = t.subrange(pos, t.len() as int);
    lemma_first_index_range(r, 10u8);
    assert forall|j: int| pos <= j < line_end(t, pos) implies t[j] != 10u8 by {
        assert(t[j] == r[j - pos]);
    }
}

/// The end of a line is the first line break after its start, or the end of the text.
pub proof fn lemma_line_end_is(t: Seq<u8>, pos: int, k: int)
    requires
        0 <= pos <= k <= t.len(),
        forall|j: int| pos <= j < k ==> t[j] != 10u8,
        k < t.len() ==> t[k] == 10u8,
    ensures
        line_end(t, pos) == k,
{
    lemma_line_end(t, pos);
    let e = line_end(t, pos);
    if e < k {
        assert(t[e] == 10u8);
    }
    if k < e {
        assert(t[k] != 10u8);
    }
}

pub proof fn lemma_parse_from_step(t: Seq<u8>, pos: int)
    requires
        0 <= pos < t.len(),
    ensures
        parse_from(t, pos) == (if line_end(t, pos) < t.len() {
            line_entries(t.subrange(pos, line_end(t, pos))) + parse_from(t, line_end(t, pos) + 1)
        } else {
            line_entries(t.subrange(pos, line_end(t, pos)))
        }),
{
    reveal(parse_from);
}

pub proof fn lemma_parse_from_end(t: Seq<u8>, pos: int)
    requires
        pos >= t.len(),
    ensures
        parse_from(t, pos) == Seq::<(Seq<u8>, RegValue)>::empty(),
{
    reveal(parse_from);
}

/// Entries read from the whole text `t`.
pub open spec fn parsed(t: Seq<u8>) -> Seq<(Seq<u8>, RegValue)> {
    parse_from(t, 0)
}

/// A copy of a value.
pub fn copy_data(d: &RegData) -> (r: RegData)
    ensures
        r@ == d@,
{
    match d {
        RegData::U32(v) => RegData::U32(*v),
        RegData::Str(s) => RegData::Str(copy_of(s.as_slice())),
        RegData::Bool(b) => RegData::Bool(*b),
    }
}

/// A copy of an entry.
pub fn copy_entry(e: &RegEntry) -> (r: RegEntry)
    ensures
        r@ == e@,
{
    RegEntry { path: copy_of(e.path.as_slice()), data: copy_data(&e.data) }
}

pub fn push_bytes(out: &mut Vec<u8>, b: &[u8])
    ensures
        final(out)@ == old(out)@ + b@,
{
    let mut i: usize = 0;
    while i < b.len()
        invariant
            i <= b@.len(),
            out@ == old(out)@ + b@.subrange(0, i as int),
        decreases b@.len() - i,
    {
        out.push(b[i]);
        i = i + 1;
        assert(out@ =~= old(out)@ + b@.subrange(0, i as int));
    }
    assert(b@.subrange(0, b@.len() as int) =~= b@);
}

fn range_is(s: &[u8], a: usize, b: usize, lit: &[u8]) -> (r: bool)
    requires
        a <= b <= s@.len(),
    ensures
        r == (s@.subrange(a as int, b as int) == lit@),
{
    let part = slice_of(s, a, b);
    bytes_eq(part.as_slice(), lit)
}

/// The value that the tag `s[ta..tb]` and the text `s[tb+1..vb]` stand for.
fn value_from(s: &[u8], ta: usize, tb: usize, vb: usize) -> (r: RegData)
    requires
        ta <= tb < vb <= s@.len(),
    ensures
        r@ == value_of(s@.subrange(ta as int, tb as int), s@.subrange(tb + 1, vb as int)),
{
    let tag_u32: Vec<u8> = vec![117u8, 51u8, 50u8];
    let tag_bool: Vec<u8> = vec![98u8, 111u8, 111u8, 108u8];
    let one: Vec<u8> = vec![49u8];
    assert(tag_u32@ =~= seq![117u8, 51u8, 50u8]);
    assert(tag_bool@ =~= seq![98u8, 111u8, 111u8, 108u8]);
    assert(one@ =~= seq![49u8]);
    reveal(value_of);
    if range_is(s, ta, tb, tag_u32.as_slice()) {
        let n = match parse_u32_range(s, tb + 1, vb) {
            Some(n) => n,
            None => 0,
        };
        RegData::U32(n)
    } else if range_is(s, ta, tb, tag_bool.as_slice()) {
        RegData::Bool(range_is(s, tb + 1, vb, one.as_slice()))
    } else {
        RegData::Str(slice_of(s, tb + 1, vb))
    }
}

pub proof fn lemma_parse_line_split(l: Seq<u8>, e: int, c: int)
    requires
        0 <= e < l.len(),
        e + 1 <= c < l.len(),
        l[e] == 61u8,
        forall|j: int| 0 <= j < e ==> l[j] != 61u8,
        l[c] == 58u8,
        forall|j: int| e + 1 <= j < c ==> l[j] != 58u8,
    ensures
        parse_line(l) == Some(
            (l.subrange(0, e), value_of(l.subrange(e + 1, c), l.subrange(c + 1, l.len() as int))),
        ),
{
    reveal(parse_line);
    lemma_first_index(l, 61u8, e);
    let rest = l.subrange(e + 1, l.len() as int);
    assert forall|j: int| 0 <= j < c - (e + 1) implies rest[j] != 58u8 by {
        assert(rest[j] == l[e + 1 + j]);
    }
    assert(rest[c - (e + 1)] == l[c]);
    lemma_first_index(rest, 58u8, c - (e + 1));
    assert(rest.subrange(0, c - (e + 1)) =~= l.subrange(e + 1, c));
    assert(rest.subrange(c - (e + 1) + 1, rest.len() as int) =~= l.subrange(c + 1, l.len() as int));
}

proof fn lemma_parse_line_none(l: Seq<u8>, e: int)
    requires
        0 <= e <= l.len(),
        forall|j: int| 0 <= j < e ==> l[j] != 61u8,
        e < l.len() ==> l[e] == 61u8,
        e < l.len() ==> forall|j: int| e + 1 <= j < l.len() ==> l[j] != 58u8,
    ensures
        parse_line(l) is None,
{
    reveal(parse_line);
    lemma_first_index(l, 61u8, e);
    if e < l.len() {
        let rest = l.subrange(e + 1, l.len() as int);
        assert forall|j: int| 0 <= j < rest.len() implies rest[j] != 58u8 by {
            assert(rest[j] == l[e + 1 + j]);
        }
        lemma_first_index(rest, 58u8, rest.len() as int);
    }
}

#[verifier::rlimit(100)]
/// Reads one entry from the trimmed line `s[a..b]`.
pub fn parse_line_range(s: &[u8], a: usize, b: usize) -> (r: Option<RegEntry>)
    requires
        a <= b <= s@.len(),
    ensures
        match r {
            Some(e) => parse_line(s@.subrange(a as int, b as int)) == Some(e@),
            None => parse_line(s@.subrange(a as int, b as int)) is None,
        },
{
    let ghost l = s@.subrange(a as int, b as int);
    let eq = find_byte(s, a, b, 61);
    if eq == b {
        proof {
            assert forall|j: int| 0 <= j < b - a implies l[j] != 61u8 by {
                assert(l[j] == s@[a + j]);
            }
            lemma_parse_line_none(l, (b - a) as int);
        }
        return None;
    }
    let colon = find_byte(s, eq + 1, b, 58);
    if colon == b {
        proof {
            assert forall|j: int| 0 <= j < eq - a implies l[j] != 61u8 by {
                assert(l[j] == s@[a + j]);
            }
            assert forall|j: int| eq - a + 1 <= j < l.len() implies l[j] != 58u8 by {
                assert(l[j] == s@[a + j]);
            }
            lemma_parse_line_none(l, (eq - a) as int);
        }
        return None;
    }
    proof {
        assert forall|j: int| 0 <= j < eq - a implies l[j] != 61u8 by {
            assert(l[j] == s@[a + j]);
        }
        assert forall|j: int| eq - a + 1 <= j < colon - a implies l[j] != 58u8 by {
            assert(l[j] == s@[a + j]);
        }
        lemma_parse_line_split(l, eq - a, colon - a);
        assert(l.subrange(0, eq - a) =~= s@.subrange(a as int, eq as int));
        assert(l.subrange(eq - a + 1, colon - a) =~= s@.subrange(eq + 1, colon as int));
        assert(l.subrange(colon - a + 1, l.len() as int) =~= s@.subrange(colon + 1, b as int));
    }
    let data = value_from(s, eq + 1, colon, b);
    Some(RegEntry { path: slice_of(s, a, eq), data })
}

impl Registry {
    /// An empty registry.
    pub fn new() -> (r: Registry)
        ensures
            r@ == Seq::<(Seq<u8>, RegValue)>::empty(),
            !r.dirty,
    {
        let r = Registry { entries: Vec::new(), dirty: false };
        assert(r@ =~= Seq::<(Seq<u8>, RegValue)>::empty());
        r
    }

    /// Position of the first entry with path `path`.
    fn index_of(&self, path: &[u8]) -> (r: Option<usize>)
        ensures
            match r {
                Some(i) => path_index(self@, path@) == Some(i as int) && i < self.entries@.len(),
                None => path_index(self@, path@) is None,
            },
    {
        let mut i: usize = 0;
        while i < self.entries.len()
            invariant
                i <= self.entries@.len(),
                forall|j: int| 0 <= j < i ==> self@[j].0 != path@,
            decreases self.entries@.len() - i,
        {
            if bytes_eq(self.entries[i].path.as_slice(), path) {
                proof {
                    assert(self@[i as int].0 == path@);
                    let s = self@;
                    let k = choose|k: int|
                        0 <= k < s.len() && s[k].0 == path@ && forall|j: int|
                            0 <= j < k ==> s[j].0 != path@;
                    if k < i {
                        assert(s[k].0 != path@);
                    }
                    if k > i {
                        assert(s[i as int].0 != path@);
                    }
                }
                return Some(i);
            }
            i = i + 1;
        }
        proof {
            let s = self@;
            if exists|k: int| 0 <= k < s.len() && s[k].0 == path@ {
                let k = choose|k: int| 0 <= k < s.len() && s[k].0 == path@;
                assert(s[k].0 != path@);
            }
        }
        None
    }

    /// Sets `path` to `data`: the first entry with that path gets the value, or a new entry is
    /// added at the end. The registry is marked as changed.
    pub fn set(&mut self, path: &[u8], data: RegData)
        ensures
            final(self)@ == reg_set(old(self)@, path@, data@),
            final(self).dirty,
    {
        let ghost d = data@;
        match self.index_of(path) {
            Some(i) => {
                self.entries.set(i, RegEntry { path: copy_of(path), data });
                assert(self@ =~= reg_set(old(self)@, path@, d));
            },
            None => {
                self.entries.push(RegEntry { path: copy_of(path), data });
                assert(self@ =~= reg_set(old(self)@, path@, d));
            },
        }
        self.dirty = true;
    }

    /// The value of the first entry with path `path`.
    pub fn get(&self, path: &[u8]) -> (r: Option<RegData>)
        ensures
            match r {
                Some(d) => reg_lookup(self@, path@) == Some(d@),
                None => reg_lookup(self@, path@) is None,
            },
    {
        match self.index_of(path) {
            Some(i) => Some(copy_data(&self.entries[i].data)),
            None => None,
        }
    }

    /// The number stored at `path`, or `default` when there is none or it is not a number.
    pub fn get_u32(&self, path: &[u8], default: u32) -> (r: u32)
        ensures
            r == (match reg_lookup(self@, path@) {
                Some(RegValue::U32(v)) => v,
                _ => default,
            }),
    {
        match self.get(path) {
            Some(RegData::U32(v)) => v,
            _ => default,
        }
    }

    /// Copies of the entries whose path starts with `prefix`, in order.
    pub fn list_prefix(&self, prefix: &[u8]) -> (r: Vec<RegEntry>)
        ensures
            r@.map_values(|e: RegEntry| e@) == with_prefix(self@, prefix@),
    {
        let mut out: Vec<RegEntry> = Vec::new();
        let mut i: usize = 0;
        while i < self.entries.len()
            invariant
                i <= self.entries@.len(),
                out@.map_values(|e: RegEntry| e@) == with_prefix(self@.subrange(0, i as int), prefix@),
            decreases self.entries@.len() - i,
        {
            let e = &self.entries[i];
            let ghost pre = self@.subrange(0, i as int);
            let ghost next = self@.subrange(0, i + 1);
            assert(next.drop_last() =~= pre);
            assert(next.last() == e@);
            let hit = prefix.len() <= e.path.len() && range_is(e.path.as_slice(), 0, prefix.len(), prefix);
            if hit {
                out.push(copy_entry(e));
            }
            assert(out@.map_values(|e: RegEntry| e@) =~= with_prefix(next, prefix@));
            i = i + 1;
        }
        assert(self@.subrange(0, self@.len() as int) =~= self@);
        out
    }

    /// The registry as text: one `path=tag:value` line per entry, in order.
    pub fn serialize(&self) -> (r: Vec<u8>)
        ensures
            r@ == serialized(self@),
    {
        let mut out: Vec<u8> = Vec::new();
        let mut i: usize = 0;
        while i < self.entries.len()
            invariant
                i <= self.entries@.len(),
                out@ == serialized(self@.subrange(0, i as int)),
            decreases self.entries@.len() - i,
        {
            let e = &self.entries[i];
            let ghost pre = self@.subrange(0, i as int);
            let ghost next = self@.subrange(0, i + 1);
            assert(next.drop_last() =~= pre);
            assert(next.last() == e@);
            let ghost before = out@;
            push_bytes(&mut out, e.path.as_slice());
            out.push(61u8);
            match &e.data {
                RegData::U32(v) => {
                    out.push(117u8);
                    out.push(51u8);
                    out.push(50u8);
                    out.push(58u8);
                    push_decimal(&mut out, *v);
                },
                RegData::Str(s) => {
                    out.push(115u8);
                    out.push(116u8);
                    out.push(114u8);
                    out.push(58u8);
                    push_bytes(&mut out, s.as_slice());
                },
                RegData::Bool(b) => {
                    out.push(98u8);
                    out.push(111u8);
                    out.push(111u8);
                    out.push(108u8);
                    out.push(58u8);
                    out.push(if *b { 49u8 } else { 48u8 });
                },
            }
            out.push(10u8);
            assert(out@ =~= before + line_body(e@) + seq![10u8]);
            i = i + 1;
        }
        assert(self@.subrange(0, self@.len() as int) =~= self@);
        out
    }

    /// Adds the entry that the line `text[pos..k]` gives, if any.
    fn push_line(&mut self, text: &[u8], pos: usize, k: usize)
        requires
            pos <= k <= text@.len(),
        ensures
            final(self)@ == old(self)@ + line_entries(text@.subrange(pos as int, k as int)),
            final(self).dirty == old(self).dirty,
    {
        let (a, b) = trim_range(text, pos, k);
        match parse_line_range(text, a, b) {
            Some(e) => {
                self.entries.push(e);
            },
            None => {},
        }
        proof {
            reveal(line_entries);
        }
        assert(self@ =~= old(self)@ + line_entries(text@.subrange(pos as int, k as int)));
    }

    /// Replaces the entries by those read from `text`, one per line: each line is trimmed,
    /// lines without `=` and `:` are skipped. The registry is marked as unchanged.
    pub fn deserialize(&mut self, text: &[u8])
        ensures
            final(self)@ == parsed(text@),
            !final(self).dirty,
    {
        self.entries.clear();
        let n = text.len();
        let mut pos: usize = 0;
        while pos < n
            invariant
                n == text@.len(),
                pos <= n,
                self@ + parse_from(text@, pos as int) == parsed(text@),
            decreases n - pos,
        {
            let k = find_byte(text, pos, n, 10);
            proof {
                lemma_line_end_is(text@, pos as int, k as int);
                lemma_parse_from_step(text@, pos as int);
            }
            let ghost before = self@;
            self.push_line(text, pos, k);
            let next = if k < n { k + 1 } else { n };
            proof {
                if k == n {
                    lemma_parse_from_end(text@, n as int);
                    assert(parse_from(text@, pos as int) =~= line_entries(
                        text@.subrange(pos as int, k as int),
                    ) + parse_from(text@, next as int));
                }
                assert(self@ + parse_from(text@, next as int) =~= before + parse_from(
                    text@,
                    pos as int,
                ));
            }
            pos = next;
        }
        proof {
            lemma_parse_from_end(text@, pos as int);
        }
        assert(self@ =~= parsed(text@));
        self.dirty = false;
    }
}


/// The number stored at `p`, or `d`.
pub open spec fn lookup_u32(s: Seq<(Seq<u8>, RegValue)>, p: Seq<u8>, d: u32) -> u32 {
    match reg_lookup(s, p) {
        Some(RegValue::U32(v)) => v,
        _ => d,
    }
}

/// The registry that `load_defaults` leaves: the system name, version and language, the
/// desktop and taskbar colours, the clock and volume settings, the session and the default
/// user's settings, set in this order.
pub open spec fn default_registry() -> Seq<(Seq<u8>, RegValue)> {
    let s0 = Seq::<(Seq<u8>, RegValue)>::empty();
    let s1 = reg_set(s0, "Sistem/Ad".spec_bytes(), RegValue::Str("Rusty OS".spec_bytes()));
    let s2 = reg_set(s1, "Sistem/Surum".spec_bytes(), RegValue::Str("0.1".spec_bytes()));
    let s3 = reg_set(s2, "Sistem/Dil".spec_bytes(), RegValue::Str("tr".spec_bytes()));
    let s4 = reg_set(s3, "Sistem/Masaustu/Renk".spec_bytes(), RegValue::U32(0x00501808));
    let s5 = reg_set(s4, "Sistem/Taskbar/Renk".spec_bytes(), RegValue::U32(0x00201008));
    let s6 = reg_set(s5, "Sistem/Saat/UTC".spec_bytes(), RegValue::U32(3));
    let s7 = reg_set(s6, "Sistem/Saat/24Saat".spec_bytes(), RegValue::Bool(true));
    let s8 = reg_set(s7, "Sistem/Ses/Seviye".spec_bytes(), RegValue::U32(100));
    let s9 = reg_set(s8, "Oturum/AktifKullanici".spec_bytes(), RegValue::Str("User".spec_bytes()));
    let s10 = reg_set(s9, "Oturum/IlkKurulumBitti".spec_bytes(), RegValue::Bool(false));
    let s11 = reg_set(s10, "Kullanicilar/User/Sifre".spec_bytes(), RegValue::Str(Seq::empty()));
    let s12 = reg_set(s11, "Kullanicilar/User/Yetki".spec_bytes(), RegValue::U32(1));
    let s13 = reg_set(
        s12,
        "Kullanicilar/User/AnaKlasor".spec_bytes(),
        RegValue::Str("Users/User".spec_bytes()),
    );
    let s14 = reg_set(s13, "Kullanicilar/User/Tema".spec_bytes(), RegValue::Str("aero".spec_bytes()));
    reg_set(s14, "Kullanicilar/User/Avatar".spec_bytes(), RegValue::Str(Seq::empty()))
}

fn str_data(s: &str) -> (r: RegData)
    ensures
        r@ == RegValue::Str(s.spec_bytes()),
{
    RegData::Str(copy_of(s.as_bytes()))
}

impl Registry {
    /// Replaces the entries by the default settings (see `default_registry`) and marks the
    /// registry as changed.
    pub fn load_defaults(&mut self)
        ensures
            final(self)@ == default_registry(),
            final(self).dirty,
    {
        self.entries.clear();
        assert(self@ =~= Seq::<(Seq<u8>, RegValue)>::empty());
        self.set("Sistem/Ad".as_bytes(), str_data("Rusty OS"));
        self.set("Sistem/Surum".as_bytes(), str_data("0.1"));
        self.set("Sistem/Dil".as_bytes(), str_data("tr"));
        self.set("Sistem/Masaustu/Renk".as_bytes(), RegData::U32(0x00501808));
        self.set("Sistem/Taskbar/Renk".as_bytes(), RegData::U32(0x00201008));
        self.set("Sistem/Saat/UTC".as_bytes(), RegData::U32(3));
        self.set("Sistem/Saat/24Saat".as_bytes(), RegData::Bool(true));
        self.set("Sistem/Ses/Seviye".as_bytes(), RegData::U32(100));
        self.set("Oturum/AktifKullanici".as_bytes(), str_data("User"));
        self.set("Oturum/IlkKurulumBitti".as_bytes(), RegData::Bool(false));
        let empty: Vec<u8> = Vec::new();
        assert(empty@ =~= Seq::<u8>::empty());
        self.set("Kullanicilar/User/Sifre".as_bytes(), RegData::Str(empty));
        self.set("Kullanicilar/User/Yetki".as_bytes(), RegData::U32(1));
        self.set("Kullanicilar/User/AnaKlasor".as_bytes(), str_data("Users/User"));
        self.set("Kullanicilar/User/Tema".as_bytes(), str_data("aero"));
        let empty2: Vec<u8> = Vec::new();
        assert(empty2@ =~= Seq::<u8>::empty());
        self.set("Kullanicilar/User/Avatar".as_bytes(), RegData::Str(empty2));
        self.dirty = true;
    }
}

/// The three settings that the kernel caches: the desktop colour, the taskbar colour (both 0
/// by default) and the permission level of the active user (`Kullanicilar/<user>/Yetki`,
/// 2 by default, where the user is `Oturum/AktifKullanici` or `User` when that is not text).
pub fn refresh_cache(reg: &Registry) -> (r: (u32, u32, u32))
    ensures
        r.0 == lookup_u32(reg@, "Sistem/Masaustu/Renk".spec_bytes(), 0),
        r.1 == lookup_u32(reg@, "Sistem/Taskbar/Renk".spec_bytes(), 0),
        r.2 == lookup_u32(
            reg@,
            "Kullanicilar/".spec_bytes() + (match reg_lookup(reg@, "Oturum/AktifKullanici".spec_bytes()) {
                Some(RegValue::Str(u)) => u,
                _ => "User".spec_bytes(),
            }) + "/Yetki".spec_bytes(),
            2,
        ),
{
    let desktop = reg.get_u32("Sistem/Masaustu/Renk".as_bytes(), 0);
    let taskbar = reg.get_u32("Sistem/Taskbar/Renk".as_bytes(), 0);
    let user: Vec<u8> = match reg.get("Oturum/AktifKullanici".as_bytes()) {
        Some(RegData::Str(s)) => s,
        _ => copy_of("User".as_bytes()),
    };
    let mut key = copy_of("Kullanicilar/".as_bytes());
    push_bytes(&mut key, user.as_slice());
    push_bytes(&mut key, "/Yetki".as_bytes());
    let level = reg.get_u32(key.as_slice(), 2);
    (desktop, taskbar, level)
}

/// Copies as much of the registry text as fits into `buf` and returns how many bytes that is.
pub fn list_call(reg: &Registry, buf: &mut Vec<u8>) -> (r: u64)
    ensures
        r == if serialized(reg@).len() < old(buf)@.len() { serialized(reg@).len() } else { old(buf)@.len() },
        final(buf)@ == splice(old(buf)@, 0, serialized(reg@).subrange(0, r as int)),
{
    let text = reg.serialize();
    let n = if text.len() < buf.len() { text.len() } else { buf.len() };
    let part = slice_of(text.as_slice(), 0, n);
    put_bytes(buf, 0, part.as_slice());
    n as u64
}

/// The line that a set request carries: a little-endian length in the first two bytes, then
/// that many bytes.
pub open spec fn request_line(buf: Seq<u8>) -> Seq<u8> {
    buf.subrange(2, 2 + le16(buf, 0))
}

/// Whether a set request is well formed: its line fits in the buffer, is UTF-8 text, and
/// holds an entry once trimmed.
pub open spec fn set_request_ok(buf: Seq<u8>) -> bool {
    &&& buf.len() >= 2
    &&& 2 + le16(buf, 0) <= buf.len()
    &&& vstd::utf8::valid_utf8(request_line(buf))
    &&& parse_line(trim(request_line(buf))) is Some
}

/// Applies a set request (`path=tag:value` behind a two-byte length) to the registry.
/// Returns 0 when the entry was set, 1 when the request is malformed (and nothing changes).
pub fn set_call(reg: &mut Registry, buf: &[u8]) -> (r: u64)
    ensures
        r == 0 <==> set_request_ok(buf@),
        r == 0 || r == 1,
        r == 0 ==> ({
            let e = parse_line(trim(request_line(buf@))).unwrap();
            final(reg)@ == reg_set(old(reg)@, e.0, e.1) && final(reg).dirty
        }),
        r == 1 ==> final(reg)@ == old(reg)@ && final(reg).dirty == old(reg).dirty,
{
    if buf.len() < 2 {
        return 1;
    }
    let l = get_le16(buf, 0) as usize;
    if 2 + l > buf.len() {
        return 1;
    }
    let line = slice_of(buf, 2, 2 + l);
    if !utf8_valid(line.as_slice()) {
        return 1;
    }
    let (a, b) = trim_range(buf, 2, 2 + l);
    match parse_line_range(buf, a, b) {
        None => 1,
        Some(e) => {
            reg.set(e.path.as_slice(), e.data);
            0
        },
    }
}

} // verus!
