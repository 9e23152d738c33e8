use vstd::prelude::*;

verus! {

/// Whether the bytes at `i` start the `_S5_` package (name followed by the package opcode),
/// with room for the search loop's look-ahead.
pub open spec fn s5_at(d: Seq<u8>, i: int) -> bool {
    &&& 0 <= i
    &&& i + 8 < d.len()
    &&& d[i] == 0x5F && d[i + 1] == 0x53 && d[i + 2] == 0x35 && d[i + 3] == 0x5F
    &&& d[i + 4] == 0x12
}

/// Position of the first `_S5_` package.
pub open spec fn first_s5(d: Seq<u8>) -> Option<int> {
    if exists|i: int| s5_at(d, i) {
        Some(choose|i: int| s5_at(d, i) && forall|j: int| 0 <= j < i ==> !s5_at(d, j))
    } else {
        None
    }
}

/// Position of the first element of the package at `i`: after the opcode, the package
/// length (whose top two bits give the number of extra length bytes) and the element count.
pub open spec fn s5_elems(d: Seq<u8>, i: int) -> int {
    i + 5 + 1 + d[i + 5] / 64 + 1
}

/// The value of a package element at `q` (a plain byte, or a byte prefixed by 0x0A) and the
/// position after it.
pub open spec fn s5_read(d: Seq<u8>, q: int) -> (int, int) {
    if d[q] == 0x0A {
        (d[q + 1] as int, q + 2)
    } else {
        (d[q] as int, q + 1)
    }
}

/// Whether reading the two sleep-type values of the package at `i` stays inside `d`.
pub open spec fn s5_readable(d: Seq<u8>, i: int) -> bool {
    let p = s5_elems(d, i);
    &&& p < d.len()
    &&& (d[p] == 0x0A ==> p + 1 < d.len())
    &&& s5_read(d, p).1 < d.len()
    &&& (d[s5_read(d, p).1] == 0x0A ==> s5_read(d, p).1 + 1 < d.len())
}

/// Finds the `_S5_` object in an AML table and returns its first two values (the sleep types
/// for PM1a and PM1b).
pub fn find_s5(dsdt: &[u8]) -> (r: Option<(u16, u16)>)
    requires
        first_s5(dsdt@) matches Some(i) ==> s5_readable(dsdt@, i),
    ensures
        match first_s5(dsdt@) {
            None => r is None,
            Some(i) => ({
                let p = s5_elems(dsdt@, i);
                let a = s5_read(dsdt@, p);
                let b = s5_read(dsdt@, a.1);
                r == Some((a.0 as u16, b.0 as u16))
            }),
        },
{
    let n = dsdt.len();
    let mut i: usize = 0;
    while n >= 9 && i < n - 8
        invariant
            n == dsdt@.len(),
            forall|j: int| 0 <= j < i ==> !s5_at(dsdt@, j),
            first_s5(dsdt@) matches Some(k) ==> s5_readable(dsdt@, k),
        decreases n - i,
    {
        if dsdt[i] == 0x5F && dsdt[i + 1] == 0x53 && dsdt[i + 2] == 0x35 && dsdt[i + 3] == 0x5F
            && dsdt[i + 4] == 0x12 {
            proof {
                assert(s5_at(dsdt@, i as int));
                let k = choose|k: int| s5_at(dsdt@, k) && forall|j: int| 0 <= j < k ==> !s5_at(dsdt@, j);
                lemma_first_s5(dsdt@, i as int);
            }
            let mut p = i + 5;
            let len_byte = dsdt[p];
            let extra = len_byte >> 6u8;
            assert(extra == len_byte / 64) by (bit_vector)
                requires
                    extra == len_byte >> 6u8,
            ;
            p += 1 + extra as usize;
            p += 1;
            let mut q = p;
            let a: u16 = if dsdt[q] == 0x0A {
                q += 1;
                dsdt[q] as u16
            } else {
                dsdt[q] as u16
            };
            q += 1;
            let b: u16 = if dsdt[q] == 0x0A {
                q += 1;
                dsdt[q] as u16
            } else {
                dsdt[q] as u16
            };
            return Some((a, b));
        }
        i += 1;
    }
    proof {
        if exists|k: int| s5_at(dsdt@, k) {
            let k = choose|k: int| s5_at(dsdt@, k);
            assert(!s5_at(dsdt@, k));
        }
    }
    None
}

proof fn lemma_first_s5(d: Seq<u8>, i: int)
    requires
        s5_at(d, i),
        forall|j: int| 0 <= j < i ==> !s5_at(d, j),
    ensures
        first_s5(d) == Some(i),
{
    let k = choose|k: int| s5_at(d, k) && forall|j: int| 0 <= j < k ==> !s5_at(d, j);
    if k < i {
        assert(!s5_at(d, k));
    }
    if k > i {
        assert(!s5_at(d, i));
    }
}

} // verus!
