use vstd::prelude::*;

verus! {

/// Little-endian value of the two bytes at `off`.
pub open spec fn le16(s: Seq<u8>, off: int) -> int {
    s[off] as int + s[off + 1] as int * 256
}

/// Little-endian value of the four bytes at `off`.
pub open spec fn le32(s: Seq<u8>, off: int) -> int {
    s[off] as int + s[off + 1] as int * 0x100 + s[off + 2] as int * 0x1_0000 + s[off + 3] as int
        * 0x100_0000
}

/// Little-endian value of the eight bytes at `off`.
pub open spec fn le64(s: Seq<u8>, off: int) -> int {
    le32(s, off) + le32(s, off + 4) * 0x1_0000_0000
}

/// The four bytes of `v`, least significant first.
pub open spec fn le32_bytes(v: u32) -> Seq<u8> {
    seq![(v % 0x100) as u8, ((v / 0x100) % 0x100) as u8, ((v / 0x1_0000) % 0x100) as u8,
        (v / 0x100_0000) as u8]
}

/// The two bytes of `v`, least significant first.
pub open spec fn le16_bytes(v: u16) -> Seq<u8> {
    seq![(v % 0x100) as u8, (v / 0x100) as u8]
}

/// `s` with the bytes of `t` written from position `off` on.
pub open spec fn splice(s: Seq<u8>, off: int, t: Seq<u8>) -> Seq<u8> {
    s.subrange(0, off) + t + s.subrange(off + t.len(), s.len() as int)
}

pub proof fn lemma_le32_bounds(s: Seq<u8>, off: int)
    requires
        0 <= off,
        off + 4 <= s.len(),
    ensures
        0 <= le32(s, off) <= u32::MAX,
{
}

pub proof fn lemma_le32_of_bytes(v: u32)
    ensures
        le32(le32_bytes(v), 0) == v,
{
}

/// Reads a little-endian `u16` at `off`.
pub fn get_le16(b: &[u8], off: usize) -> (r: u16)
    requires
        off + 2 <= b@.len(),
    ensures
        r as int == le16(b@, off as int),
{
    let lo = b[off];
    let hi = b[off + 1];
    assert((lo as u16 | ((hi as u16) << 8u16)) as int == lo as int + hi as int * 256)
        by (bit_vector);
    lo as u16 | ((hi as u16) << 8u16)
}

/// Reads a little-endian `u32` at `off`.
pub fn get_le32(b: &[u8], off: usize) -> (r: u32)
    requires
        off + 4 <= b@.len(),
    ensures
        r as int == le32(b@, off as int),
{
    let b0 = b[off];
    let b1 = b[off + 1];
    let b2 = b[off + 2];
    let b3 = b[off + 3];
    let r = b0 as u32 | ((b1 as u32) << 8u32) | ((b2 as u32) << 16u32) | ((b3 as u32) << 24u32);
    assert(r as int == b0 as int + b1 as int * 0x100 + b2 as int * 0x1_0000 + b3 as int
        * 0x100_0000) by (bit_vector)
        requires
            r == b0 as u32 | ((b1 as u32) << 8u32) | ((b2 as u32) << 16u32) | ((b3 as u32)
                << 24u32),
    ;
    r
}

/// Reads a little-endian `u64` at `off`.
pub fn get_le64(b: &[u8], off: usize) -> (r: u64)
    requires
        off + 8 <= b@.len(),
    ensures
        r as int == le64(b@, off as int),
{
    let _n = b.len();
    let lo = get_le32(b, off);
    let hi = get_le32(b, off + 4);
    let r = (lo as u64) | ((hi as u64) << 32u64);
    assert(r as int == lo as int + hi as int * 0x1_0000_0000) by (bit_vector)
        requires
            r == (lo as u64) | ((hi as u64) << 32u64),
    ;
    r
}

/// Writes `v` little-endian at `off`.
pub fn put_le32(b: &mut Vec<u8>, off: usize, v: u32)
    requires
        off + 4 <= old(b)@.len(),
    ensures
        final(b)@ == splice(old(b)@, off as int, le32_bytes(v)),
{
    let _n = b.len();
    let b0 = (v & 0xFF) as u8;
    let b1 = ((v >> 8u32) & 0xFF) as u8;
    let b2 = ((v >> 16u32) & 0xFF) as u8;
    let b3 = (v >> 24u32) as u8;
    assert(b0 == (v % 0x100) as u8 && b1 == ((v / 0x100) % 0x100) as u8 && b2 == ((v / 0x1_0000)
        % 0x100) as u8 && b3 == (v / 0x100_0000) as u8) by (bit_vector)
        requires
            b0 == (v & 0xFF) as u8,
            b1 == ((v >> 8u32) & 0xFF) as u8,
            b2 == ((v >> 16u32) & 0xFF) as u8,
            b3 == (v >> 24u32) as u8,
    ;
    b.set(off, b0);
    b.set(off + 1, b1);
    b.set(off + 2, b2);
    b.set(off + 3, b3);
    assert(final(b)@ =~= splice(old(b)@, off as int, le32_bytes(v)));
}

/// The eight bytes of `v`, least significant first.
pub open spec fn le64_bytes(v: u64) -> Seq<u8> {
    le32_bytes((v % 0x1_0000_0000) as u32) + le32_bytes((v / 0x1_0000_0000) as u32)
}

/// Writes `v` little-endian at `off`.
pub fn put_le64(b: &mut Vec<u8>, off: usize, v: u64)
    requires
        off + 8 <= old(b)@.len(),
    ensures
        final(b)@ == splice(old(b)@, off as int, le64_bytes(v)),
{
    let _n = b.len();
    let lo = (v & 0xFFFF_FFFF) as u32;
    let hi = (v >> 32u64) as u32;
    assert(lo == (v % 0x1_0000_0000) as u32 && hi == (v / 0x1_0000_0000) as u32) by (bit_vector)
        requires
            lo == (v & 0xFFFF_FFFF) as u32,
            hi == (v >> 32u64) as u32,
    ;
    put_le32(b, off, lo);
    put_le32(b, off + 4, hi);
    assert(final(b)@ =~= splice(old(b)@, off as int, le64_bytes(v)));
}

/// Writes `v` little-endian at `off`.
pub fn put_le16(b: &mut Vec<u8>, off: usize, v: u16)
    requires
        off + 2 <= old(b)@.len(),
    ensures
        final(b)@ == splice(old(b)@, off as int, le16_bytes(v)),
{
    let _n = b.len();
    let b0 = (v & 0xFF) as u8;
    let b1 = (v >> 8u16) as u8;
    assert(b0 == (v % 0x100) as u8 && b1 == (v / 0x100) as u8) by (bit_vector)
        requires
            b0 == (v & 0xFF) as u8,
            b1 == (v >> 8u16) as u8,
    ;
    b.set(off, b0);
    b.set(off + 1, b1);
    assert(final(b)@ =~= splice(old(b)@, off as int, le16_bytes(v)));
}

/// Copies `src` into `dst` from position `off` on.
pub fn put_bytes(dst: &mut Vec<u8>, off: usize, src: &[u8])
    requires
        off + src@.len() <= old(dst)@.len(),
    ensures
        final(dst)@ == splice(old(dst)@, off as int, src@),
{
    let n = dst.len();
    let mut i: usize = 0;
    while i < src.len()
        invariant
            n == dst@.len(),
            i <= src@.len(),
            off + src@.len() <= dst@.len(),
            dst@.len() == old(dst)@.len(),
            forall|k: int| 0 <= k < off ==> dst@[k] == old(dst)@[k],
            forall|k: int| off + i <= k < dst@.len() ==> dst@[k] == old(dst)@[k],
            forall|k: int| 0 <= k < i ==> dst@[off + k] == src@[k],
        decreases src@.len() - i,
    {
        dst.set(off + i, src[i]);
        i = i + 1;
    }
    assert(dst@ =~= splice(old(dst)@, off as int, src@));
}

/// A vector of `n` zero bytes.
pub fn zeroes(n: usize) -> (r: Vec<u8>)
    ensures
        r@ == Seq::new(n as nat, |i: int| 0u8),
{
    let r = vec![0u8; n];
    assert(r@ =~= Seq::new(n as nat, |i: int| 0u8));
    r
}

/// A copy of `s`.
pub fn copy_of(s: &[u8]) -> (r: Vec<u8>)
    ensures
        r@ == s@,
{
    let mut r: Vec<u8> = Vec::new();
    let mut i: usize = 0;
    while i < s.len()
        invariant
            i <= s@.len(),
            r@ == s@.subrange(0, i as int),
        decreases s@.len() - i,
    {
        r.push(s[i]);
        i = i + 1;
        assert(r@ =~= s@.subrange(0, i as int));
    }
    assert(r@ =~= s@);
    r
}

/// The bytes `s[from..to]` as a new vector.
pub fn slice_of(s: &[u8], from: usize, to: usize) -> (r: Vec<u8>)
    requires
        from <= to <= s@.len(),
    ensures
        r@ == s@.subrange(from as int, to as int),
{
    let mut r: Vec<u8> = Vec::new();
    let mut i: usize = from;
    while i < to
        invariant
            from <= i <= to,
            to <= s@.len(),
            r@ == s@.subrange(from as int, i as int),
        decreases to - i,
    {
        r.push(s[i]);
        i = i + 1;
        assert(r@ =~= s@.subrange(from as int, i as int));
    }
    r
}

/// Whether `a` and `b` hold the same bytes.
pub fn bytes_eq(a: &[u8], b: &[u8]) -> (r: bool)
    ensures
        r == (a@ == b@),
{
    if a.len() != b.len() {
        return false;
    }
    let mut i: usize = 0;
    while i < a.len()
        invariant
            i <= a@.len(),
            a@.len() == b@.len(),
            forall|k: int| 0 <= k < i ==> a@[k] == b@[k],
        decreases a@.len() - i,
    {
        if a[i] != b[i] {
            return false;
        }
        i = i + 1;
    }
    assert(a@ =~= b@);
    true
}

/// ASCII lower case of a byte; other bytes are kept.
pub open spec fn ascii_lower(c: u8) -> u8 {
    if 65 <= c <= 90 { (c + 32) as u8 } else { c }
}

/// ASCII upper case of a byte; other bytes are kept.
pub open spec fn ascii_upper(c: u8) -> u8 {
    if 97 <= c <= 122 { (c - 32) as u8 } else { c }
}

pub fn to_ascii_lower(c: u8) -> (r: u8)
    ensures
        r == ascii_lower(c),
{
    if 65 <= c && c <= 90 { c + 32 } else { c }
}

pub fn to_ascii_upper(c: u8) -> (r: u8)
    ensures
        r == ascii_upper(c),
{
    if 97 <= c && c <= 122 { c - 32 } else { c }
}

/// Equality up to ASCII case, byte by byte.
pub open spec fn eq_ignore_case(a: Seq<u8>, b: Seq<u8>) -> bool {
    a.len() == b.len() && forall|k: int| 0 <= k < a.len() ==> ascii_lower(a[k]) == ascii_lower(b[k])
}

/// Whether `a` and `b` are equal when ASCII letters are compared without case.
pub fn bytes_eq_ignore_case(a: &[u8], b: &[u8]) -> (r: bool)
    ensures
        r == eq_ignore_case(a@, b@),
{
    if a.len() != b.len() {
        return false;
    }
    let mut i: usize = 0;
    while i < a.len()
        invariant
            i <= a@.len(),
            a@.len() == b@.len(),
            forall|k: int| 0 <= k < i ==> ascii_lower(a@[k]) == ascii_lower(b@[k]),
        decreases a@.len() - i,
    {
        if to_ascii_lower(a[i]) != to_ascii_lower(b[i]) {
            return false;
        }
        i = i + 1;
    }
    true
}

/// Index of the first occurrence of `c` in `s`, if any.
pub open spec fn first_index(s: Seq<u8>, c: u8) -> Option<int> {
    if exists|i: int| 0 <= i < s.len() && s[i] == c {
        Some(choose|i: int| 0 <= i < s.len() && s[i] == c && forall|j: int| 0 <= j < i ==> s[j] != c)
    } else {
        None
    }
}

pub proof fn lemma_first_index(s: Seq<u8>, c: u8, i: int)
    requires
        0 <= i <= s.len(),
        forall|j: int| 0 <= j < i ==> s[j] != c,
        i < s.len() ==> s[i] == c,
    ensures
        first_index(s, c) == (if i < s.len() { Some(i) } else { None::<int> }),
{
    if i < s.len() {
        assert(s[i] == c && forall|j: int| 0 <= j < i ==> s[j] != c);
        let k = choose|k: int| 0 <= k < s.len() && s[k] == c && forall|j: int| 0 <= j < k ==> s[j] != c;
        if k < i {
            assert(s[k] != c);
        }
        if k > i {
            assert(s[i] != c);
        }
    }
}

pub proof fn lemma_first_index_range(s: Seq<u8>, c: u8)
    ensures
        match first_index(s, c) {
            Some(i) => 0 <= i < s.len() && s[i] == c && forall|j: int| 0 <= j < i ==> s[j] != c,
            None => forall|j: int| 0 <= j < s.len() ==> s[j] != c,
        },
{
    if exists|i: int| 0 <= i < s.len() && s[i] == c {
        let w = choose|i: int| 0 <= i < s.len() && s[i] == c;
        lemma_min_index(s, c, w);
    }
}

proof fn lemma_min_index(s: Seq<u8>, c: u8, w: int)
    requires
        0 <= w < s.len(),
        s[w] == c,
    ensures
        exists|i: int| 0 <= i < s.len() && s[i] == c && forall|j: int| 0 <= j < i ==> s[j] != c,
    decreases w,
{
    if exists|j: int| 0 <= j < w && s[j] == c {
        let j = choose|j: int| 0 <= j < w && s[j] == c;
        lemma_min_index(s, c, j);
    } else {
        assert(forall|j: int| 0 <= j < w ==> s[j] != c);
    }
}

/// Position of the first `c` in `s[from..to]`, or `to` when there is none.
pub fn find_byte(s: &[u8], from: usize, to: usize, c: u8) -> (r: usize)
    requires
        from <= to <= s@.len(),
    ensures
        from <= r <= to,
        forall|j: int| from <= j < r ==> s@[j] != c,
        r < to ==> s@[r as int] == c,
{
    let mut i = from;
    while i < to
        invariant
            from <= i <= to,
            to <= s@.len(),
            forall|j: int| from <= j < i ==> s@[j] != c,
        decreases to - i,
    {
        if s[i] == c {
            return i;
        }
        i = i + 1;
    }
    i
}

} // verus!
