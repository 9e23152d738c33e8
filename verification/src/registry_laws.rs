use vstd::prelude::*;
use crate::bytes::{first_index, lemma_first_index};
use crate::text::{trim, lemma_trim_noop, ws_len_at_start, ws_len_at_end, lemma_parse_decimal};
use crate::registry::{RegValue, path_index, reg_lookup, reg_set, line_body, serialized, parsed, parse_from, line_end, line_entries, lemma_parse_from_end, lemma_parse_from_step, lemma_line_end, lemma_line_end_is, lemma_parse_line_split, tag_of, value_text, value_of};

verus! {

/// `path_index` is the position of the first entry with that path.
pub proof fn lemma_path_index_is(s: Seq<(Seq<u8>, RegValue)>, p: Seq<u8>, i: int)
    requires
        0 <= i <= s.len(),
        forall|j: int| 0 <= j < i ==> s[j].0 != p,
        i < s.len() ==> s[i].0 == p,
    ensures
        path_index(s, p) == (if i < s.len() { Some(i) } else { None::<int> }),
{
    if i < s.len() {
        assert(s[i].0 == p && forall|j: int| 0 <= j < i ==> s[j].0 != p);
        let k = choose|k: int| 0 <= k < s.len() && s[k].0 == p && forall|j: int| 0 <= j < k ==> s[j].0 != p;
        if k < i {
            assert(s[k].0 != p);
        }
        if k > i {
            assert(s[i].0 != p);
        }
    } else {
        if exists|k: int| 0 <= k < s.len() && s[k].0 == p {
            let k = choose|k: int| 0 <= k < s.len() && s[k].0 == p;
            assert(s[k].0 != p);
        }
    }
}

pub proof fn lemma_path_index_range(s: Seq<(Seq<u8>, RegValue)>, p: Seq<u8>)
    ensures
        match path_index(s, p) {
            Some(i) => 0 <= i < s.len() && s[i].0 == p && forall|j: int| 0 <= j < i ==> s[j].0 != p,
            None => forall|j: int| 0 <= j < s.len() ==> s[j].0 != p,
        },
{
    if exists|i: int| 0 <= i < s.len() && s[i].0 == p {
        let w = choose|i: int| 0 <= i < s.len() && s[i].0 == p;
        lemma_min_path(s, p, w);
    }
}

proof fn lemma_min_path(s: Seq<(Seq<u8>, RegValue)>, p: Seq<u8>, w: int)
    requires
        0 <= w < s.len(),
        s[w].0 == p,
    ensures
        exists|i: int| 0 <= i < s.len() && s[i].0 == p && forall|j: int| 0 <= j < i ==> s[j].0 != p,
    decreases w,
{
    if exists|j: int| 0 <= j < w && s[j].0 == p {
        let j = choose|j: int| 0 <= j < w && s[j].0 == p;
        lemma_min_path(s, p, j);
    } else {
        assert(forall|j: int| 0 <= j < w ==> s[j].0 != p);
    }
}

/// After setting `p` to `v`, looking up `p` gives `v`, and looking up any other path gives
/// what it gave before.
pub proof fn lemma_get_after_set(s: Seq<(Seq<u8>, RegValue)>, p: Seq<u8>, v: RegValue, q: Seq<u8>)
    ensures
        reg_lookup(reg_set(s, p, v), q) == (if q == p { Some(v) } else { reg_lookup(s, q) }),
{
    lemma_path_index_range(s, p);
    lemma_path_index_range(s, q);
    let t = reg_set(s, p, v);
    match path_index(s, p) {
        None => {
            if q == p {
                lemma_path_index_is(t, q, s.len() as int);
            } else {
                match path_index(s, q) {
                    Some(k) => lemma_path_index_is(t, q, k),
                    None => lemma_path_index_is(t, q, t.len() as int),
                }
            }
        },
        Some(i) => {
            if q == p {
                lemma_path_index_is(t, q, i);
            } else {
                match path_index(s, q) {
                    Some(k) => {
                        assert(k != i);
                        lemma_path_index_is(t, q, k);
                    },
                    None => lemma_path_index_is(t, q, t.len() as int),
                }
            }
        },
    }
}

/// No two entries share a path.
pub open spec fn unique_paths(s: Seq<(Seq<u8>, RegValue)>) -> bool {
    forall|i: int, j: int| 0 <= i < j < s.len() ==> s[i].0 != s[j].0
}

/// Setting a path never makes two entries share a path, and adds an entry only when the path
/// was not there.
pub proof fn lemma_set_keeps_paths_unique(s: Seq<(Seq<u8>, RegValue)>, p: Seq<u8>, v: RegValue)
    requires
        unique_paths(s),
    ensures
        unique_paths(reg_set(s, p, v)),
        reg_set(s, p, v).len() == (if reg_lookup(s, p) is Some { s.len() } else { s.len() + 1 }),
{
    lemma_path_index_range(s, p);
    let t = reg_set(s, p, v);
    assert forall|i: int, j: int| 0 <= i < j < t.len() implies t[i].0 != t[j].0 by {
        match path_index(s, p) {
            Some(k) => {
                assert(t[i].0 == s[i].0 && t[j].0 == s[j].0);
            },
            None => {
                if j == s.len() {
                    assert(s[i].0 != p);
                } else {
                    assert(t[i].0 == s[i].0 && t[j].0 == s[j].0);
                }
            },
        }
    }
}

/// An entry that `serialize` writes on one line that `deserialize` reads back unchanged: its
/// path holds no `=`, its line holds no line break and neither starts nor ends with whitespace.
pub open spec fn roundtrip_entry(e: (Seq<u8>, RegValue)) -> bool {
    &&& forall|i: int| 0 <= i < e.0.len() ==> e.0[i] != 61u8
    &&& forall|i: int| 0 <= i < line_body(e).len() ==> line_body(e)[i] != 10u8
    &&& ws_len_at_start(line_body(e)) == 0
    &&& ws_len_at_end(line_body(e)) == 0
}

proof fn lemma_serialized_front(s: Seq<(Seq<u8>, RegValue)>)
    requires
        s.len() > 0,
    ensures
        serialized(s) == line_body(s[0]) + seq![10u8] + serialized(s.drop_first()),
    decreases s.len(),
{
    if s.len() == 1 {
        assert(s.drop_last() =~= Seq::<(Seq<u8>, RegValue)>::empty());
        assert(s.drop_first() =~= Seq::<(Seq<u8>, RegValue)>::empty());
        assert(serialized(s) =~= line_body(s[0]) + seq![10u8] + serialized(s.drop_first()));
    } else {
        lemma_serialized_front(s.drop_last());
        assert(s.drop_last().drop_first() =~= s.drop_first().drop_last());
        assert(s.drop_first().last() == s.last());
        assert(s.drop_last()[0] == s[0]);
        assert(serialized(s) =~= line_body(s[0]) + seq![10u8] + serialized(s.drop_first()));
    }
}

#[verifier::rlimit(60)]
proof fn lemma_parse_from_shift(a: Seq<u8>, b: Seq<u8>, j: int)
    requires
        0 <= j,
    ensures
        parse_from(a + b, a.len() + j) == parse_from(b, j),
    decreases b.len() - j,
{
    let t = a + b;
    let pos = a.len() + j;
    if j >= b.len() {
        lemma_parse_from_end(t, pos);
        lemma_parse_from_end(b, j);
    } else {
        lemma_line_end(b, j);
        assert forall|x: int| pos <= x < a.len() + line_end(b, j) implies t[x] != 10u8 by {
            assert(t[x] == b[x - a.len()]);
        }
        lemma_line_end_is(t, pos, a.len() + line_end(b, j));
        lemma_parse_from_step(t, pos);
        lemma_parse_from_step(b, j);
        assert(t.subrange(pos, line_end(t, pos)) =~= b.subrange(j, line_end(b, j)));
        if line_end(b, j) < b.len() {
            lemma_parse_from_shift(a, b, line_end(b, j) + 1);
        }
    }
}

proof fn lemma_tags_have_no_colon(v: RegValue)
    ensures
        forall|i: int| 0 <= i < tag_of(v).len() ==> tag_of(v)[i] != 58u8,
{
}

proof fn lemma_line_parses(e: (Seq<u8>, RegValue))
    requires
        roundtrip_entry(e),
    ensures
        line_entries(line_body(e)) == seq![e],
{
    let body = line_body(e);
    lemma_trim_noop(body);
    let eq = e.0.len() as int;
    let c = eq + 1 + tag_of(e.1).len();
    lemma_tags_have_no_colon(e.1);
    assert forall|j: int| 0 <= j < eq implies body[j] != 61u8 by {
        assert(body[j] == e.0[j]);
    }
    assert forall|j: int| eq + 1 <= j < c implies body[j] != 58u8 by {
        assert(body[j] == tag_of(e.1)[j - eq - 1]);
    }
    assert(body[eq] == 61u8);
    assert(body[c] == 58u8);
    lemma_parse_line_split(body, eq, c);
    assert(body.subrange(0, eq) =~= e.0);
    assert(body.subrange(eq + 1, c) =~= tag_of(e.1));
    assert(body.subrange(c + 1, body.len() as int) =~= value_text(e.1));
    lemma_value_roundtrip(e.1);
    reveal(line_entries);
}

proof fn lemma_value_roundtrip(v: RegValue)
    ensures
        value_of(tag_of(v), value_text(v)) == v,
{
    reveal(value_of);
    match v {
        RegValue::U32(n) => {
            lemma_parse_decimal(n);
        },
        RegValue::Str(x) => {
            assert(tag_of(v) != seq![117u8, 51u8, 50u8]) by {
                assert(tag_of(v)[0] != seq![117u8, 51u8, 50u8][0]);
            }
            assert(tag_of(v) != seq![98u8, 111u8, 111u8, 108u8]);
        },
        RegValue::Bool(b) => {
            assert(tag_of(v) != seq![117u8, 51u8, 50u8]);
            if !b {
                assert(value_text(v) != seq![49u8]) by {
                    assert(value_text(v)[0] != seq![49u8][0]);
                }
            }
        },
    }
}

/// Reading back the text of a registry gives the same entries, in the same order, when each
/// entry is one that fits on its own line (see `roundtrip_entry`).
pub proof fn lemma_deserialize_serialize(s: Seq<(Seq<u8>, RegValue)>)
    requires
        forall|i: int| 0 <= i < s.len() ==> roundtrip_entry(#[trigger] s[i]),
    ensures
        parsed(serialized(s)) == s,
    decreases s.len(),
{
    if s.len() == 0 {
        lemma_parse_from_end(serialized(s), 0);
        assert(parsed(serialized(s)) =~= s);
    } else {
        let e = s[0];
        assert(roundtrip_entry(e));
        let rest = s.drop_first();
        assert forall|i: int| 0 <= i < rest.len() implies roundtrip_entry(#[trigger] rest[i]) by {
            assert(rest[i] == s[i + 1]);
        }
        lemma_deserialize_serialize(rest);
        lemma_serialized_front(s);
        let body = line_body(e);
        let head = body + seq![10u8];
        let t = serialized(s);
        assert(t == head + serialized(rest));
        assert forall|x: int| 0 <= x < body.len() implies t[x] != 10u8 by {
            assert(t[x] == body[x]);
        }
        lemma_line_end_is(t, 0, body.len() as int);
        lemma_parse_from_step(t, 0);
        assert(t.subrange(0, body.len() as int) =~= body);
        lemma_line_parses(e);
        lemma_parse_from_shift(head, serialized(rest), 0);
        assert(parsed(t) =~= seq![e] + rest);
        assert(seq![e] + rest =~= s);
    }
}

} // verus!
