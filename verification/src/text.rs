use vstd::prelude::*;

verus! {

/// Length of the whitespace character (Unicode `White_Space`, UTF-8 encoded) that `s` starts
/// with, or 0.
pub open spec fn ws_len_at_start(s: Seq<u8>) -> int {
    if s.len() >= 1 && (s[0] == 32 || (9 <= s[0] && s[0] <= 13)) {
        1
    } else if s.len() >= 2 && s[0] == 0xC2 && (s[1] == 0x85 || s[1] == 0xA0) {
        2
    } else if s.len() >= 3 && ((s[0] == 0xE1 && s[1] == 0x9A && s[2] == 0x80) || (s[0] == 0xE2
        && s[1] == 0x80 && ((0x80 <= s[2] && s[2] <= 0x8A) || s[2] == 0xA8 || s[2] == 0xA9 || s[2]
        == 0xAF)) || (s[0] == 0xE2 && s[1] == 0x81 && s[2] == 0x9F) || (s[0] == 0xE3 && s[1]
        == 0x80 && s[2] == 0x80)) {
        3
    } else {
        0
    }
}

/// Length of the whitespace character that `s` ends with, or 0.
pub open spec fn ws_len_at_end(s: Seq<u8>) -> int {
    let n = s.len() as int;
    if n >= 1 && (s[n - 1] == 32 || (9 <= s[n - 1] && s[n - 1] <= 13)) {
        1
    } else if n >= 2 && s[n - 2] == 0xC2 && (s[n - 1] == 0x85 || s[n - 1] == 0xA0) {
        2
    } else if n >= 3 && ((s[n - 3] == 0xE1 && s[n - 2] == 0x9A && s[n - 1] == 0x80) || (s[n - 3]
        == 0xE2 && s[n - 2] == 0x80 && ((0x80 <= s[n - 1] && s[n - 1] <= 0x8A) || s[n - 1] == 0xA8
        || s[n - 1] == 0xA9 || s[n - 1] == 0xAF)) || (s[n - 3] == 0xE2 && s[n - 2] == 0x81 && s[n
        - 1] == 0x9F) || (s[n - 3] == 0xE3 && s[n - 2] == 0x80 && s[n - 1] == 0x80)) {
        3
    } else {
        0
    }
}

/// `s` without its leading whitespace characters.
#[verifier::opaque]
pub open spec fn trim_start(s: Seq<u8>) -> Seq<u8>
    decreases s.len(),
{
    let n = ws_len_at_start(s);
    if n == 0 {
        s
    } else {
        trim_start(s.subrange(n, s.len() as int))
    }
}

/// `s` without its trailing whitespace characters.
#[verifier::opaque]
pub open spec fn trim_end(s: Seq<u8>) -> Seq<u8>
    decreases s.len(),
{
    let n = ws_len_at_end(s);
    if n == 0 {
        s
    } else {
        trim_end(s.subrange(0, s.len() - n))
    }
}

/// `s` without leading and trailing whitespace, as `str::trim` gives it for UTF-8 text.
#[verifier::opaque]
pub open spec fn trim(s: Seq<u8>) -> Seq<u8> {
    trim_end(trim_start(s))
}

/// Text that neither starts nor ends with whitespace is its own trimmed form.
pub proof fn lemma_trim_noop(s: Seq<u8>)
    requires
        ws_len_at_start(s) == 0,
        ws_len_at_end(s) == 0,
    ensures
        trim(s) == s,
{
    reveal(trim);
    reveal(trim_start);
    reveal(trim_end);
}

fn is_ascii_ws(c: u8) -> (r: bool)
    ensures
        r == (c == 32 || (9 <= c && c <= 13)),
{
    c == 32 || (9 <= c && c <= 13)
}

/// Length of the whitespace character at the start of `s[a..b]`.
pub fn ws_prefix(s: &[u8], a: usize, b: usize) -> (r: usize)
    requires
        a <= b <= s@.len(),
    ensures
        r == ws_len_at_start(s@.subrange(a as int, b as int)),
{
    let ghost t = s@.subrange(a as int, b as int);
    let n = b - a;
    if n >= 1 && is_ascii_ws(s[a]) {
        return 1;
    }
    if n >= 2 && s[a] == 0xC2 && (s[a + 1] == 0x85 || s[a + 1] == 0xA0) {
        return 2;
    }
    if n >= 3 {
        let c0 = s[a];
        let c1 = s[a + 1];
        let c2 = s[a + 2];
        if (c0 == 0xE1 && c1 == 0x9A && c2 == 0x80) || (c0 == 0xE2 && c1 == 0x80 && ((0x80 <= c2
            && c2 <= 0x8A) || c2 == 0xA8 || c2 == 0xA9 || c2 == 0xAF)) || (c0 == 0xE2 && c1 == 0x81
            && c2 == 0x9F) || (c0 == 0xE3 && c1 == 0x80 && c2 == 0x80) {
            return 3;
        }
    }
    0
}

/// Length of the whitespace character at the end of `s[a..b]`.
pub fn ws_suffix(s: &[u8], a: usize, b: usize) -> (r: usize)
    requires
        a <= b <= s@.len(),
    ensures
        r == ws_len_at_end(s@.subrange(a as int, b as int)),
{
    let ghost t = s@.subrange(a as int, b as int);
    let n = b - a;
    if n >= 1 && is_ascii_ws(s[b - 1]) {
        return 1;
    }
    if n >= 2 && s[b - 2] == 0xC2 && (s[b - 1] == 0x85 || s[b - 1] == 0xA0) {
        return 2;
    }
    if n >= 3 {
        let c0 = s[b - 3];
        let c1 = s[b - 2];
        let c2 = s[b - 1];
        if (c0 == 0xE1 && c1 == 0x9A && c2 == 0x80) || (c0 == 0xE2 && c1 == 0x80 && ((0x80 <= c2
            && c2 <= 0x8A) || c2 == 0xA8 || c2 == 0xA9 || c2 == 0xAF)) || (c0 == 0xE2 && c1 == 0x81
            && c2 == 0x9F) || (c0 == 0xE3 && c1 == 0x80 && c2 == 0x80) {
            return 3;
        }
    }
    0
}

/// Bounds of the trimmed part of `s[a..b]`.
pub fn trim_range(s: &[u8], a: usize, b: usize) -> (r: (usize, usize))
    requires
        a <= b <= s@.len(),
    ensures
        a <= r.0 <= r.1 <= b,
        s@.subrange(r.0 as int, r.1 as int) == trim(s@.subrange(a as int, b as int)),
{
    let mut x = a;
    loop
        invariant
            a <= x <= b,
            b <= s@.len(),
            trim_start(s@.subrange(a as int, b as int)) == trim_start(s@.subrange(x as int, b as int)),
        ensures
            a <= x <= b,
            trim_start(s@.subrange(a as int, b as int)) == s@.subrange(x as int, b as int),
        decreases b - x,
    {
        let n = ws_prefix(s, x, b);
        proof {
            reveal(trim_start);
        }
        if n == 0 {
            break;
        }
        proof {
            assert(s@.subrange(x as int, b as int).subrange(n as int, (b - x) as int) =~= s@.subrange(
                x + n,
                b as int,
            ));
        }
        x = x + n;
    }
    let mut y = b;
    loop
        invariant
            a <= x <= y <= b,
            b <= s@.len(),
            trim_end(s@.subrange(x as int, b as int)) == trim_end(s@.subrange(x as int, y as int)),
        ensures
            a <= x <= y <= b,
            trim_end(s@.subrange(x as int, b as int)) == s@.subrange(x as int, y as int),
        decreases y - x,
    {
        let n = ws_suffix(s, x, y);
        proof {
            reveal(trim_end);
        }
        if n == 0 {
            break;
        }
        proof {
            assert(s@.subrange(x as int, y as int).subrange(0, (y - x) - n) =~= s@.subrange(
                x as int,
                y - n,
            ));
        }
        y = y - n;
    }
    proof {
        reveal(trim);
    }
    (x, y)
}

/// Whether `d` is a nonempty run of ASCII digits.
pub open spec fn all_digits(d: Seq<u8>) -> bool {
    forall|i: int| 0 <= i < d.len() ==> 48 <= #[trigger] d[i] <= 57
}

/// Decimal value of a run of ASCII digits.
pub open spec fn digits_value(d: Seq<u8>) -> int
    decreases d.len(),
{
    if d.len() == 0 {
        0
    } else {
        digits_value(d.drop_last()) * 10 + (d.last() - 48)
    }
}

/// What `u32::from_str` gives for the UTF-8 text `s`: an optional `+`, then decimal digits
/// whose value fits in 32 bits.
pub open spec fn parse_u32(s: Seq<u8>) -> Option<u32> {
    let d = if s.len() > 0 && s[0] == 43 { s.drop_first() } else { s };
    if d.len() > 0 && all_digits(d) && digits_value(d) <= u32::MAX {
        Some(digits_value(d) as u32)
    } else {
        None
    }
}

/// Decimal digits of `n`, most significant first, without leading zeros.
pub open spec fn decimal(n: nat) -> Seq<u8>
    decreases n,
{
    if n < 10 {
        seq![(48 + n) as u8]
    } else {
        decimal(n / 10).push((48 + n % 10) as u8)
    }
}

pub proof fn lemma_digits_value_nonneg(d: Seq<u8>)
    requires
        all_digits(d),
    ensures
        digits_value(d) >= 0,
    decreases d.len(),
{
    if d.len() > 0 {
        assert(all_digits(d.drop_last()));
        lemma_digits_value_nonneg(d.drop_last());
    }
}

pub proof fn lemma_decimal(n: nat)
    ensures
        decimal(n).len() > 0,
        all_digits(decimal(n)),
        digits_value(decimal(n)) == n,
        decimal(n)[0] != 43,
    decreases n,
{
    if n >= 10 {
        lemma_decimal(n / 10);
        let d = decimal(n);
        assert(d.drop_last() =~= decimal(n / 10));
        assert(d.last() == (48 + n % 10) as u8);
        assert(n == (n / 10) * 10 + n % 10);
        assert(digits_value(d) == digits_value(decimal(n / 10)) * 10 + (n % 10));
        assert forall|i: int| 0 <= i < d.len() implies 48 <= #[trigger] d[i] <= 57 by {
            if i < d.len() - 1 {
                assert(d[i] == decimal(n / 10)[i]);
            }
        }
    } else {
        assert(decimal(n).drop_last() =~= Seq::<u8>::empty());
        assert(digits_value(Seq::<u8>::empty()) == 0);
    }
}

/// `parse_u32` reads back the decimal digits of any 32-bit value.
pub proof fn lemma_parse_decimal(v: u32)
    ensures
        parse_u32(decimal(v as nat)) == Some(v),
{
    lemma_decimal(v as nat);
}

/// Appends the decimal digits of `v` to `out`.
pub fn push_decimal64(out: &mut Vec<u8>, v: u64)
    ensures
        final(out)@ == old(out)@ + decimal(v as nat),
    decreases v,
{
    if v >= 10 {
        push_decimal64(out, v / 10);
    }
    out.push(48 + (v % 10) as u8);
    proof {
        if v >= 10 {
            assert(decimal(v as nat) == decimal((v / 10) as nat).push((48 + v % 10) as u8));
        }
        assert(final(out)@ =~= old(out)@ + decimal(v as nat));
    }
}

/// Appends the decimal digits of `v` to `out`.
pub fn push_decimal(out: &mut Vec<u8>, v: u32)
    ensures
        final(out)@ == old(out)@ + decimal(v as nat),
    decreases v,
{
    if v >= 10 {
        push_decimal(out, v / 10);
    }
    out.push(48 + (v % 10) as u8);
    proof {
        if v >= 10 {
            assert(decimal(v as nat) == decimal((v / 10) as nat).push((48 + v % 10) as u8));
        }
        assert(final(out)@ =~= old(out)@ + decimal(v as nat));
    }
}

/// `u32::from_str` on `s[a..b]`.
pub fn parse_u32_range(s: &[u8], a: usize, b: usize) -> (r: Option<u32>)
    requires
        a <= b <= s@.len(),
    ensures
        r == parse_u32(s@.subrange(a as int, b as int)),
{
    let ghost t = s@.subrange(a as int, b as int);
    let mut i = a;
    if i < b && s[i] == 43 {
        i = i + 1;
    }
    let ghost d = s@.subrange(i as int, b as int);
    let ghost dd = if t.len() > 0 && t[0] == 43 { t.drop_first() } else { t };
    proof {
        assert(d =~= dd);
    }
    if i == b {
        return None;
    }
    let start = i;
    let mut acc: u32 = 0;
    while i < b
        invariant
            start <= i <= b,
            b <= s@.len(),
            d == s@.subrange(start as int, b as int),
            d == dd,
            dd == (if t.len() > 0 && t[0] == 43 { t.drop_first() } else { t }),
            t == s@.subrange(a as int, b as int),
            all_digits(s@.subrange(start as int, i as int)),
            acc as int == digits_value(s@.subrange(start as int, i as int)),
        decreases b - i,
    {
        let c = s[i];
        let ghost p = s@.subrange(start as int, i as int);
        let ghost p2 = s@.subrange(start as int, i + 1);
        assert(p2.drop_last() =~= p);
        if c < 48 || c > 57 {
            proof {
                assert(d[i - start] == c);
            }
            return None;
        }
        assert(all_digits(p2)) by {
            assert forall|k: int| 0 <= k < p2.len() implies 48 <= #[trigger] p2[k] <= 57 by {
                if k < p.len() {
                    assert(p2[k] == p[k]);
                }
            }
        }
        match acc.checked_mul(10) {
            None => {
                proof {
                    assert(d.subrange(0, i + 1 - start) =~= p2);
                    lemma_prefix_value_bound(d, (i + 1 - start) as int);
                }
                return None;
            },
            Some(m) => match m.checked_add((c - 48) as u32) {
                None => {
                    proof {
                        assert(d.subrange(0, i + 1 - start) =~= p2);
                        lemma_prefix_value_bound(d, (i + 1 - start) as int);
                    }
                    return None;
                },
                Some(n) => {
                    acc = n;
                },
            },
        }
        i = i + 1;
    }
    proof {
        assert(s@.subrange(start as int, b as int) =~= d);
    }
    Some(acc)
}

/// The value of a digit prefix never exceeds the value of the whole (when all are digits).
proof fn lemma_prefix_value_bound(d: Seq<u8>, k: int)
    requires
        0 <= k <= d.len(),
    ensures
        all_digits(d) ==> digits_value(d.subrange(0, k)) <= digits_value(d),
    decreases d.len() - k,
{
    if k < d.len() && all_digits(d) {
        let p = d.subrange(0, k);
        let p2 = d.subrange(0, k + 1);
        assert(p2.drop_last() =~= p);
        assert(all_digits(p)) by {
            assert forall|i: int| 0 <= i < p.len() implies 48 <= #[trigger] p[i] <= 57 by {
                assert(p[i] == d[i]);
            }
        }
        lemma_digits_value_nonneg(p);
        assert(p2.last() == d[k]);
        lemma_prefix_value_bound(d, k + 1);
        assert(d.subrange(0, d.len() as int) =~= d);
    } else if k == d.len() {
        assert(d.subrange(0, k) =~= d);
    }
}

/// Whether `b` is well-formed UTF-8, as `core::str::from_utf8` decides it.
#[verifier::external_body]
pub(crate) fn utf8_valid(b: &[u8]) -> (r: bool)
    ensures
        r == vstd::utf8::valid_utf8(b@),
{
    core::str::from_utf8(b).is_ok()
}

} // verus!
